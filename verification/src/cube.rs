//! Cube states: edge/corner orientation and permutation.
use vstd::prelude::*;

use crate::perm::Perm;
use crate::bitset::{bit, comb_rank, lemma_popcount_count, lemma_popcount_or, test_bit, lemma_bit_ext, lemma_bit_or, lemma_bit_xor, lemma_bit_zero, popcount};
use crate::math::{
    count_below, factorial, falling, lemma_count_below_ext, lemma_count_below_perm,
    lemma_count_below_xor,
};
use crate::perm::rank_fits;
use crate::mov::Move;
use crate::piece::{Corner, Edge};

verus! {

/// Orientation lane `k` (bits `[2k, 2k + 2)`) of `x`.
pub open spec fn lane(x: u16, k: int) -> int {
    ((x >> ((2 * k) as u16)) & 3u16) as int
}

pub open spec fn twist_sum(a: u16, c: u16) -> u16 {
    let m0 = a ^ c;
    let m1 = m0 & ((m0 << 1u16) as u16);
    let m = ((a & c) | m1) & 0xaaaau16;
    (((a + c) as u16 - m) as u16 - (m >> 1u16)) as u16
}

proof fn lemma_twist_sum(a: u16, c: u16, k: u16)
    requires
        k < 8,
        (a >> 0u16) & 3 < 3,
        (a >> 2u16) & 3 < 3,
        (a >> 4u16) & 3 < 3,
        (a >> 6u16) & 3 < 3,
        (a >> 8u16) & 3 < 3,
        (a >> 10u16) & 3 < 3,
        (a >> 12u16) & 3 < 3,
        (a >> 14u16) & 3 < 3,
        (c >> 0u16) & 3 < 3,
        (c >> 2u16) & 3 < 3,
        (c >> 4u16) & 3 < 3,
        (c >> 6u16) & 3 < 3,
        (c >> 8u16) & 3 < 3,
        (c >> 10u16) & 3 < 3,
        (c >> 12u16) & 3 < 3,
        (c >> 14u16) & 3 < 3,
    ensures
        (twist_sum(a, c) >> (2 * k) as u16) & 3 == (((a >> (2 * k) as u16) & 3) + ((c >> (2 * k) as u16) & 3)) % 3,
{
    let m0 = a ^ c;
    let m1 = m0 & ((m0 << 1u16) as u16);
    let m = ((a & c) | m1) & 0xaaaau16;
    let r = (((a + c) as u16 - m) as u16 - (m >> 1u16)) as u16;
    let s = (2 * k) as u16;
    assert((r >> s) & 3 == (((a >> s) & 3) + ((c >> s) & 3)) % 3) by (bit_vector)
        requires
            m0 == a ^ c,
            m1 == m0 & ((m0 << 1u16) as u16),
            m == ((a & c) | m1) & 0xaaaau16,
            r == (((a + c) as u16 - m) as u16 - (m >> 1u16)) as u16,
            s == 2 * k,
            k < 8,
            (a >> 0u16) & 3 < 3,
            (a >> 2u16) & 3 < 3,
            (a >> 4u16) & 3 < 3,
            (a >> 6u16) & 3 < 3,
            (a >> 8u16) & 3 < 3,
            (a >> 10u16) & 3 < 3,
            (a >> 12u16) & 3 < 3,
            (a >> 14u16) & 3 < 3,
            (c >> 0u16) & 3 < 3,
            (c >> 2u16) & 3 < 3,
            (c >> 4u16) & 3 < 3,
            (c >> 6u16) & 3 < 3,
            (c >> 8u16) & 3 < 3,
            (c >> 10u16) & 3 < 3,
            (c >> 12u16) & 3 < 3,
            (c >> 14u16) & 3 < 3,
    ;
}


proof fn lemma_wrapping(x: u16, y: u16)
    ensures
        x.wrapping_add(y) == (x + y) as u16,
        x.wrapping_sub(y) == (x - y) as u16,
{
    assert(x.wrapping_add(y) == (x + y) as u16) by (bit_vector);
    assert(x.wrapping_sub(y) == (x - y) as u16) by (bit_vector);
}


proof fn lemma_eo_coord_bits(x: u16, p: u16)
    requires
        x < 2048,
        p <= 1,
    ensures
        !bit(x, 11),
        !bit(x, 12),
        !bit(x, 13),
        !bit(x, 14),
        !bit(x, 15),
        (x | ((p << 11u16) as u16)) % 2048 == x,
        (p << 11u16) as u16 == (p << (11int as u16)) as u16,
{
    assert(!((x >> 11u16) & 1u16 == 1u16) && !((x >> 12u16) & 1u16 == 1u16) && !((x >> 13u16) & 1u16
        == 1u16) && !((x >> 14u16) & 1u16 == 1u16) && !((x >> 15u16) & 1u16 == 1u16) && (x | ((p
        << 11u16) as u16)) % 2048 == x) by (bit_vector)
        requires
            x < 2048,
            p <= 1,
    ;
}

/// EO encodes edge orientation at each edge slot.
/// Storage: (1 bit * 12); a set bit means the edge in that slot is flipped ("bad").
#[derive(Copy, Clone, Debug, PartialEq, Eq, Structural)]
pub struct EO(pub u16);

impl Default for EO {
    fn default() -> (r: Self)
        ensures
            r.0 == 0,
    {
        EO(0)
    }
}

impl EO {
    /// Only the twelve edge bits may be set.
    pub open spec fn valid(self) -> bool {
        forall|j: int| 12 <= j < 16 ==> !#[trigger] bit(self.0, j)
    }

    /// Whether bit `j` of the result of moving the flips of `x` along `p`: some flipped
    /// edge `i` is sent to `j`.
    pub open spec fn moved_bit(x: u16, p: Perm<12>, j: int) -> bool {
        exists|i: int| 0 <= i < 12 && bit(x, i) && #[trigger] p.dest_of(i) == j
    }

    pub fn new() -> (r: Self)
        ensures
            r.0 == 0,
    {
        EO(0)
    }

    /// Construct straight from the u16 internal representation, without conversion overhead.
    pub fn from_repr(repr: u16) -> (r: Self)
        ensures
            r.0 == repr,
    {
        EO(repr)
    }

    /// Construct from a list specifying which edges are bad.
    pub fn from_bad_edges(edges: &[Edge]) -> (r: Self)
        ensures
            forall|j: int|
                0 <= j < 16 ==> (#[trigger] bit(r.0, j) <==> exists|k: int|
                    0 <= k < edges@.len() && edges@[k].spec_coord() == j),
    {
        let mut ret: u16 = 0;
        proof {
            assert forall|j: int| 0 <= j < 16 implies !#[trigger] bit(ret, j) by {
                lemma_bit_zero(j);
            }
        }
        let mut k: usize = 0;
        while k < edges.len()
            invariant
                k <= edges@.len(),
                forall|j: int|
                    0 <= j < 16 ==> (#[trigger] bit(ret, j) <==> exists|m: int|
                        0 <= m < k && edges@[m].spec_coord() == j),
            decreases edges@.len() - k,
        {
            let c = edges[k].coord();
            let ghost old_ret = ret;
            ret = ret | (1u16 << c as u16);
            proof {
                assert forall|j: int| 0 <= j < 16 implies (#[trigger] bit(ret, j) <==> exists|m: int|
                    0 <= m < k + 1 && edges@[m].spec_coord() == j) by {
                    lemma_bit_or(old_ret, 1, c as int, j);
                    if exists|m: int| 0 <= m < k + 1 && edges@[m].spec_coord() == j {
                        let m = choose|m: int| 0 <= m < k + 1 && edges@[m].spec_coord() == j;
                        if m < k {
                            assert(bit(old_ret, j));
                        }
                    }
                    if bit(old_ret, j) {
                        let m = choose|m: int| 0 <= m < k && edges@[m].spec_coord() == j;
                        assert(0 <= m < k + 1 && edges@[m].spec_coord() == j);
                    }
                }
            }
            k = k + 1;
        }
        EO(ret)
    }

    /// The flips of the first eleven edges as a binary number; the twelfth flip is
    /// determined by the other eleven on a reachable cube.
    pub fn coord(&self) -> (r: usize)
        ensures
            r == self.0 % 2048,
    {
        let x = self.0;
        assert(x & 0x7ff == x % 2048) by (bit_vector);
        (x & 0x7ff) as usize
    }

    /// The orientation with the given coordinate: eleven flips as binary digits, and the
    /// twelfth making the number of flips even.
    pub fn from_coord(c: usize) -> (r: Self)
        requires
            c < 2048,
        ensures
            r.valid(),
            r.0 % 2048 == c,
            popcount(r.0, 12) % 2 == 0,
    {
        let x = c as u16;
        let mut cnt: u16 = 0;
        let mut j: u16 = 0;
        while j < 11
            invariant
                j <= 11,
                cnt == popcount(x, j as int),
                cnt <= j,
            decreases 11 - j,
        {
            if test_bit(x, j) {
                cnt = cnt + 1;
            }
            j = j + 1;
        }
        let p = cnt % 2;
        let r = x | (p << 11u16);
        proof {
            lemma_eo_coord_bits(x, p);
            lemma_bit_or(x, p, 11, 11);
            assert(popcount(x, 12) == popcount(x, 11));
            if p == 1 {
                lemma_popcount_or(x, 11, 12);
            } else {
                assert forall|j: int| 0 <= j < 16 implies bit(r, j) == bit(x, j) by {
                    lemma_bit_or(x, p, 11, j);
                }
                lemma_bit_ext(r, x);
            }
            assert forall|j: int| 12 <= j < 16 implies !#[trigger] bit(r, j) by {
                lemma_bit_or(x, p, 11, j);
            }
        }
        EO(r)
    }

    /// Move the flip of each edge slot `i` to slot `p.dest(i)`.
    pub fn swizzle(&self, p: Perm<12>) -> (r: Self)
        ensures
            forall|j: int| 0 <= j < 16 ==> #[trigger] bit(r.0, j) == Self::moved_bit(self.0, p, j),
            p.valid() ==> r.valid(),
    {
        let mut ret: u16 = 0;
        proof {
            assert forall|j: int| 0 <= j < 16 implies !#[trigger] bit(ret, j) by {
                lemma_bit_zero(j);
            }
        }
        let mut i: usize = 0;
        while i < 12
            invariant
                i <= 12,
                forall|j: int|
                    0 <= j < 16 ==> (#[trigger] bit(ret, j) <==> exists|k: int|
                        0 <= k < i && bit(self.0, k) && p.dest_of(k) == j),
            decreases 12 - i,
        {
            let j = p.dest(i);
            let x: u16 = self.0;
            let b: u16 = (x >> i as u16) & 1;
            assert(b <= 1) by (bit_vector)
                requires
                    b == (x >> i as u16) & 1,
            ;
            let ghost old_ret = ret;
            ret = ret | (b << j as u16);
            proof {
                assert(bit(self.0, i as int) == (b == 1));
                assert forall|jj: int| 0 <= jj < 16 implies (#[trigger] bit(ret, jj) <==> exists|k: int|
                    0 <= k < i + 1 && bit(self.0, k) && p.dest_of(k) == jj) by {
                    lemma_bit_or(old_ret, b, j as int, jj);
                    if exists|k: int| 0 <= k < i + 1 && bit(self.0, k) && p.dest_of(k) == jj {
                        let k = choose|k: int|
                            0 <= k < i + 1 && bit(self.0, k) && p.dest_of(k) == jj;
                        if k < i {
                            assert(bit(old_ret, jj));
                        }
                    }
                    if bit(old_ret, jj) {
                        let k = choose|k: int| 0 <= k < i && bit(self.0, k) && p.dest_of(k) == jj;
                        assert(0 <= k < i + 1 && bit(self.0, k) && p.dest_of(k) == jj);
                    }
                }
            }
            i = i + 1;
        }
        proof {
            assert forall|jj: int| 0 <= jj < 16 implies #[trigger] bit(ret, jj)
                == Self::moved_bit(self.0, p, jj) by {
                if bit(ret, jj) {
                    let k = choose|k: int| 0 <= k < 12 && bit(self.0, k) && p.dest_of(k) == jj;
                    assert(0 <= k < 12 && bit(self.0, k) && p.dest_of(k) == jj);
                }
            }
        }
        EO(ret)
    }

    pub fn compose(&self, e: Self) -> (r: Self)
        ensures
            r.0 == self.0 ^ e.0,
    {
        EO(self.0 ^ e.0)
    }

    pub fn is_bad(&self, edge: Edge) -> (r: bool)
        ensures
            r == bit(self.0, edge.spec_coord()),
    {
        let c = edge.coord() as u16;
        let x = self.0;
        assert(((x >> c) & 1 != 0) == ((x >> c) & 1u16 == 1u16)) by (bit_vector);
        (x >> c) & 1 != 0
    }
}


pub proof fn lemma_lane_or(x: u16, v: u16, j: int, k: int)
    requires
        v < 4,
        0 <= j < 8,
        0 <= k < 8,
    ensures
        lane(x | ((v << ((2 * j) as u16)) as u16), k) == if k == j {
            (((x >> ((2 * k) as u16)) & 3u16) | v) as int
        } else {
            lane(x, k)
        },
        k == j && lane(x, k) == 0 ==> lane(x | ((v << ((2 * j) as u16)) as u16), k) == v,
        0 <= lane(x, k) < 4,
        lane(0, k) == 0,
{
    let sj = (2 * j) as u16;
    let sk = (2 * k) as u16;
    assert(((x | ((v << sj) as u16)) >> sk) & 3u16 == (if sk == sj {
        ((x >> sk) & 3u16) | v
    } else {
        (x >> sk) & 3u16
    }) && (sk == sj && (x >> sk) & 3u16 == 0 ==> ((x | ((v << sj) as u16)) >> sk) & 3u16 == v)
        && (x >> sk) & 3u16 < 4 && (0u16 >> sk) & 3u16 == 0) by (bit_vector)
        requires
            v < 4,
            sj <= 14,
            sk <= 14,
            sj % 2 == 0,
            sk % 2 == 0,
    ;
}

pub proof fn lemma_lane_zero(k: int)
    requires
        0 <= k < 8,
    ensures
        lane(0, k) == 0,
{
    lemma_lane_or(0, 0, 0, k);
}

/// Two words with the same eight lanes are equal.
pub proof fn lemma_lane_ext(x: u16, y: u16)
    requires
        forall|k: int| 0 <= k < 8 ==> lane(x, k) == lane(y, k),
    ensures
        x == y,
{
    assert(lane(x, 0) == lane(y, 0));
    assert(lane(x, 1) == lane(y, 1));
    assert(lane(x, 2) == lane(y, 2));
    assert(lane(x, 3) == lane(y, 3));
    assert(lane(x, 4) == lane(y, 4));
    assert(lane(x, 5) == lane(y, 5));
    assert(lane(x, 6) == lane(y, 6));
    assert(lane(x, 7) == lane(y, 7));
    assert(x == y) by (bit_vector)
        requires
            (x >> 0u16) & 3 == (y >> 0u16) & 3,
            (x >> 2u16) & 3 == (y >> 2u16) & 3,
            (x >> 4u16) & 3 == (y >> 4u16) & 3,
            (x >> 6u16) & 3 == (y >> 6u16) & 3,
            (x >> 8u16) & 3 == (y >> 8u16) & 3,
            (x >> 10u16) & 3 == (y >> 10u16) & 3,
            (x >> 12u16) & 3 == (y >> 12u16) & 3,
            (x >> 14u16) & 3 == (y >> 14u16) & 3,
    ;
}

/// The twists of `x` moved along `p`: lane `i` is OR-ed into lane `p.dest(i)`, for the
/// first `n` lanes.
pub open spec fn co_moved(x: u16, p: Perm<8>, n: int) -> u16
    decreases n,
{
    if n <= 0 {
        0
    } else {
        co_moved(x, p, n - 1) | ((((x >> ((2 * (n - 1)) as u16)) & 3u16) << ((2 * p.dest_of(n
            - 1)) as u16)) as u16)
    }
}

proof fn lemma_co_moved_valid(x: u16, p: Perm<8>, n: int, i: int)
    requires
        p.valid(),
        0 <= n <= 8,
        0 <= i < 8,
    ensures
        lane(co_moved(x, p, n), p.dest_of(i)) == if i < n {
            lane(x, i)
        } else {
            0
        },
    decreases n,
{
    let j = p.dest_of(i);
    if n == 0 {
        lemma_lane_or(0, 0, 0, j);
    } else {
        lemma_co_moved_valid(x, p, n - 1, i);
        lemma_co_moved_valid(x, p, n - 1, n - 1);
        let v = (x >> ((2 * (n - 1)) as u16)) & 3u16;
        lemma_lane_or(x, 0, 0, n - 1);
        lemma_lane_or(co_moved(x, p, n - 1), v, p.dest_of(n - 1), j);
        if i != n - 1 {
            assert(p.dest_of(i) != p.dest_of(n - 1));
        }
    }
}

/// Every lane of `x` holds a twist 0, 1 or 2.
pub open spec fn twists_valid(x: u16) -> bool {
    forall|k: int| 0 <= k < 8 ==> #[trigger] lane(x, k) < 3
}

/// The twists of an association list OR-ed into their corners' lanes.
pub open spec fn assoc_bits(s: Seq<(Corner, u8)>, n: int) -> u16
    decreases n,
{
    if n <= 0 {
        0
    } else {
        assoc_bits(s, n - 1) | (((s[n - 1].1 as u16) << ((2 * s[n - 1].0.spec_coord()) as u16)) as u16)
    }
}

/// No corner appears twice in the list.
pub open spec fn distinct_corners(s: Seq<(Corner, u8)>) -> bool {
    forall|a: int, b: int| 0 <= a < s.len() && 0 <= b < s.len() && a != b ==> (#[trigger] s[a]).0 != (#[trigger] s[b]).0
}

pub open spec fn pow3(k: nat) -> nat
    decreases k,
{
    if k == 0 {
        1
    } else {
        3 * pow3((k - 1) as nat)
    }
}

/// The first `n` lanes of `x` read as a base-3 number, lane 0 lowest.
pub open spec fn co_index(x: u16, n: int) -> nat
    decreases n,
{
    if n <= 0 {
        0
    } else {
        co_index(x, n - 1) + (lane(x, n - 1) as nat) * pow3((n - 1) as nat)
    }
}

/// Sum of the first `n` twists.
pub open spec fn twist_total(x: u16, n: int) -> nat
    decreases n,
{
    if n <= 0 {
        0
    } else {
        twist_total(x, n - 1) + lane(x, n - 1) as nat
    }
}

/// With twists in `0..3`, the total of the first `n` twists counts the ones and, twice,
/// the twos.
pub proof fn lemma_twist_total_count(x: u16, n: int)
    requires
        n <= 8,
        forall|k: int| 0 <= k < n ==> #[trigger] lane(x, k) < 3,
    ensures
        twist_total(x, n) == count_below(|i: int| lane(x, i) == 1, n) + 2 * count_below(
            |i: int| lane(x, i) == 2,
            n,
        ),
    decreases n,
{
    if n > 0 {
        lemma_twist_total_count(x, n - 1);
        assert(lane(x, n - 1) < 3);
    }
}

/// Moving valid twists along a permutation of the eight corners keeps their total.
pub proof fn lemma_twist_total_perm(x: u16, y: u16, p: Perm<8>)
    requires
        p.valid(),
        twists_valid(x),
        forall|k: int| 0 <= k < 8 ==> #[trigger] lane(y, p.dest_of(k)) == lane(x, k),
    ensures
        twists_valid(y),
        twist_total(y, 8) == twist_total(x, 8),
{
    assert forall|j: int| 0 <= j < 8 implies #[trigger] lane(y, j) < 3 by {
        p.lemma_has_source(j);
        let i = choose|i: int| 0 <= i < 8 && p.dest_of(i) == j;
        assert(lane(y, p.dest_of(i)) == lane(x, i));
    }
    let d = |i: int| p.dest_of(i);
    assert forall|i: int| 0 <= i < 8 implies 0 <= #[trigger] d(i) < 8 by {
        assert(p.dest_of(i) < 8);
    }
    lemma_count_below_perm(|i: int| lane(x, i) == 1, |i: int| lane(y, i) == 1, d, 8);
    lemma_count_below_perm(|i: int| lane(x, i) == 2, |i: int| lane(y, i) == 2, d, 8);
    lemma_twist_total_count(x, 8);
    lemma_twist_total_count(y, 8);
}

pub proof fn lemma_pow3_values()
    ensures
        pow3(0) == 1,
        pow3(1) == 3,
        pow3(2) == 9,
        pow3(3) == 27,
        pow3(4) == 81,
        pow3(5) == 243,
        pow3(6) == 729,
        pow3(7) == 2187,
{
    reveal_with_fuel(pow3, 8);
}

proof fn lemma_co_index_frame(x: u16, y: u16, n: int)
    requires
        0 <= n <= 8,
        forall|j: int| 0 <= j < n ==> lane(x, j) == lane(y, j),
    ensures
        co_index(x, n) == co_index(y, n),
        co_index(y, n + 1) == co_index(x, n) + (lane(y, n) as nat) * pow3(n as nat),
    decreases n,
{
    if n > 0 {
        lemma_co_index_frame(x, y, n - 1);
    }
}

proof fn lemma_twist_total_frame(x: u16, y: u16, n: int)
    requires
        0 <= n <= 8,
        forall|j: int| 0 <= j < n ==> lane(x, j) == lane(y, j),
    ensures
        twist_total(x, n) == twist_total(y, n),
        twist_total(y, n + 1) == twist_total(x, n) + lane(y, n) as nat,
    decreases n,
{
    if n > 0 {
        lemma_twist_total_frame(x, y, n - 1);
    }
}

/// The first `n` lanes, read in base 3, stay below `3^n`.
proof fn lemma_co_index_bound(x: u16, n: int)
    requires
        0 <= n <= 8,
        forall|j: int| 0 <= j < n ==> #[trigger] lane(x, j) < 3,
    ensures
        co_index(x, n) < pow3(n as nat),
    decreases n,
{
    if n > 0 {
        lemma_co_index_bound(x, n - 1);
        let d = lane(x, n - 1);
        let f = pow3((n - 1) as nat);
        let q = co_index(x, n - 1);
        assert(d < 3);
        assert(q + d * f < 3 * f) by (nonlinear_arith)
            requires
                0 <= d < 3,
                0 <= q < f,
        ;
    }
}

/// Equal base-3 readings of the first `n` valid lanes come from equal lanes.
proof fn lemma_co_index_injective(x: u16, y: u16, n: int)
    requires
        0 <= n <= 8,
        forall|j: int| 0 <= j < n ==> #[trigger] lane(x, j) < 3,
        forall|j: int| 0 <= j < n ==> #[trigger] lane(y, j) < 3,
        co_index(x, n) == co_index(y, n),
    ensures
        forall|j: int| 0 <= j < n ==> lane(x, j) == lane(y, j),
    decreases n,
{
    if n > 0 {
        lemma_co_index_bound(x, n - 1);
        lemma_co_index_bound(y, n - 1);
        let f = pow3((n - 1) as nat);
        let (qx, qy) = (lane(x, n - 1), lane(y, n - 1));
        let (rx, ry) = (co_index(x, n - 1) as int, co_index(y, n - 1) as int);
        assert(qx == qy && rx == ry) by (nonlinear_arith)
            requires
                qx * f + rx == qy * f + ry,
                0 <= rx < f,
                0 <= ry < f,
        ;
        lemma_co_index_injective(x, y, n - 1);
    }
}

/// Valid twists with the same reading of the first seven corners, whose totals are
/// multiples of 3, are equal: the last twist is fixed by the others.
pub proof fn lemma_co_determined(x: u16, y: u16)
    requires
        twists_valid(x),
        twists_valid(y),
        co_index(x, 7) == co_index(y, 7),
        twist_total(x, 8) % 3 == 0,
        twist_total(y, 8) % 3 == 0,
    ensures
        x == y,
{
    lemma_co_index_injective(x, y, 7);
    lemma_twist_total_frame(x, y, 7);
    assert(lane(x, 7) < 3 && lane(y, 7) < 3);
    assert(twist_total(x, 8) == twist_total(x, 7) + lane(x, 7) as nat);
    lemma_lane_ext(x, y);
}

/// Words with the same first `n` bits count the same set bits below `n`.
proof fn lemma_popcount_frame(x: u16, y: u16, n: int)
    requires
        forall|j: int| 0 <= j < n ==> #[trigger] bit(x, j) == bit(y, j),
    ensures
        popcount(x, n) == popcount(y, n),
    decreases n,
{
    if n > 0 {
        lemma_popcount_frame(x, y, n - 1);
        assert(bit(x, n - 1) == bit(y, n - 1));
    }
}

/// Flips on the twelve edges with the same first eleven, in even number, are equal: the
/// last flip is fixed by the others.
pub proof fn lemma_eo_determined(x: u16, y: u16)
    requires
        forall|j: int| 12 <= j < 16 ==> !#[trigger] bit(x, j),
        forall|j: int| 12 <= j < 16 ==> !#[trigger] bit(y, j),
        x % 2048 == y % 2048,
        popcount(x, 12) % 2 == 0,
        popcount(y, 12) % 2 == 0,
    ensures
        x == y,
{
    assert forall|j: int| 0 <= j < 11 implies #[trigger] bit(x, j) == bit(y, j) by {
        let k = j as u16;
        assert(((x >> k) & 1u16 == 1u16) == ((y >> k) & 1u16 == 1u16)) by (bit_vector)
            requires
                x % 2048 == y % 2048,
                k < 11,
        ;
    }
    lemma_popcount_frame(x, y, 11);
    assert(bit(x, 11) == bit(y, 11));
    lemma_bit_ext(x, y);
}

/// The twists of `c` sum to a multiple of 3 and its flips are even in number, as on every
/// cube reached from the solved cube by turns.
pub open spec fn orientations_balanced(c: Cube) -> bool {
    &&& twist_total(c.co.0, 8) % 3 == 0
    &&& popcount(c.eo.0, 12) % 2 == 0
}

/// Adding valid twists lane-wise adds their totals, modulo 3.
proof fn lemma_twist_total_sum(x: u16, y: u16, n: int)
    requires
        0 <= n <= 8,
        twists_valid(x),
        twists_valid(y),
    ensures
        twist_total(twist_sum(x, y), n) % 3 == (twist_total(x, n) + twist_total(y, n)) % 3,
    decreases n,
{
    if n > 0 {
        lemma_twist_total_sum(x, y, n - 1);
        lemma_twist_sum_lanes(x, y);
        assert(lane(twist_sum(x, y), n - 1) == (lane(x, n - 1) + lane(y, n - 1)) % 3);
    }
}

/// Lane-wise twist addition modulo 3.
pub open spec fn co_add(a: Seq<int>, b: Seq<int>) -> Seq<int> {
    Seq::new(8, |k: int| (a[k] + b[k]) % 3)
}

/// CO encodes corner orientation at each corner slot relative to some axis
/// Storage: (2 bits * 8)
/// - CO=00 means correct CO relative to the axis
/// - CO=01 means a clockwise twist is needed to correct CO relative to the axis
/// - CO=10 means a counter-clockwise twist is needed to correct CO relative to the axis
#[derive(Copy, Clone, Debug, PartialEq, Eq, Structural)]
pub struct CO(pub u16);

impl Default for CO {
    fn default() -> (r: Self)
        ensures
            r.0 == 0,
    {
        CO(0)
    }
}

impl View for CO {
    type V = Seq<int>;

    /// The twist of each of the eight corner slots.
    open spec fn view(&self) -> Seq<int> {
        Seq::new(8, |k: int| lane(self.0, k))
    }
}

impl CO {
    /// Every lane holds a twist 0, 1 or 2.
    pub open spec fn valid(self) -> bool {
        twists_valid(self.0)
    }

    pub fn new() -> (r: Self)
        ensures
            r.0 == 0,
    {
        CO(0)
    }

    /// Construct straight from the u16 internal representation, without conversion overhead.
    pub fn from_repr(repr: u16) -> (r: Self)
        ensures
            r.0 == repr,
    {
        CO(repr)
    }

    /// Construct from an association list mapping each piece to its CO, every unspecified piece
    /// is assumed to have solved CO.
    pub fn from_assoc(assoc: &[(Corner, u8)]) -> (r: Self)
        requires
            forall|k: int| 0 <= k < assoc@.len() ==> (#[trigger] assoc@[k]).1 <= 3,
        ensures
            r.0 == assoc_bits(assoc@, assoc@.len() as int),
            distinct_corners(assoc@) ==> forall|k: int|
                0 <= k < assoc@.len() ==> lane(r.0, (#[trigger] assoc@[k]).0.spec_coord()) == assoc@[k].1,
            distinct_corners(assoc@) ==> forall|j: int|
                0 <= j < 8 && (forall|k: int| 0 <= k < assoc@.len() ==> (#[trigger] assoc@[k]).0.spec_coord() != j)
                    ==> lane(r.0, j) == 0,
    {
        let ghost s = assoc@;
        let mut ret: u16 = 0;
        proof {
            assert forall|j: int| 0 <= j < 8 implies lane(ret, j) == 0 by {
                lemma_lane_or(0, 0, 0, j);
            }
        }
        let mut i: usize = 0;
        while i < assoc.len()
            invariant
                s == assoc@,
                i <= s.len(),
                forall|k: int| 0 <= k < s.len() ==> (#[trigger] s[k]).1 <= 3,
                ret == assoc_bits(s, i as int),
                distinct_corners(s) ==> forall|k: int|
                    0 <= k < i ==> lane(ret, (#[trigger] s[k]).0.spec_coord()) == s[k].1,
                distinct_corners(s) ==> forall|j: int|
                    0 <= j < 8 && (forall|k: int| 0 <= k < i ==> (#[trigger] s[k]).0.spec_coord() != j)
                        ==> lane(ret, j) == 0,
            decreases s.len() - i,
        {
            let (c, co) = assoc[i];
            let ghost old_ret = ret;
            let sh: u16 = (c.coord() * 2) as u16;
            ret = ret | ((co as u16) << sh);
            proof {
                let j0 = c.spec_coord();
                if distinct_corners(s) {
                    assert forall|k: int| 0 <= k < i + 1 implies lane(ret, (#[trigger] s[k]).0.spec_coord())
                        == s[k].1 by {
                        lemma_lane_or(old_ret, co as u16, j0, s[k].0.spec_coord());
                        if k < i {
                            assert(s[k].0 != s[i as int].0);
                        } else {
                            assert(forall|m: int| 0 <= m < i ==> (#[trigger] s[m]).0.spec_coord() != j0);
                        }
                    }
                    assert forall|j: int|
                        0 <= j < 8 && (forall|k: int| 0 <= k < i + 1 ==> (#[trigger] s[k]).0.spec_coord() != j)
                            implies lane(ret, j) == 0 by {
                        lemma_lane_or(old_ret, co as u16, j0, j);
                        assert(s[i as int].0.spec_coord() != j);
                    }
                }
            }
            i = i + 1;
        }
        CO(ret)
    }

    /// The twists of the first seven corners read as a base-3 number (lane 0 lowest); the
    /// eighth twist is determined by the other seven on a reachable cube.
    pub fn coord(&self) -> (r: usize)
        ensures
            r == co_index(self.0, 7),
            self.valid() ==> r < 2187,
    {
        let mut ans: usize = 0;
        let mut mult: usize = 1;
        let mut k: usize = 0;
        proof {
            lemma_pow3_values();
        }
        while k < 7
            invariant
                k <= 7,
                mult == pow3(k as nat),
                mult <= 729 || k == 7,
                mult <= 2187,
                pow3(7) == 2187,
                ans == co_index(self.0, k as int),
                ans <= 3 * mult,
                self.valid() ==> ans < mult,
            decreases 7 - k,
        {
            let x = self.0;
            let d = (x >> (2 * k as u16)) & 3;
            proof {
                lemma_lane_or(x, 0, 0, k as int);
            }
            assert(d as int == lane(x, k as int));
            proof {
                lemma_pow3_values();
                assert(d <= 3);
                assert(d * mult <= 3 * mult) by (nonlinear_arith)
                    requires
                        d <= 3,
                ;
                if self.valid() {
                    assert(d <= 2);
                    assert(d * mult <= 2 * mult) by (nonlinear_arith)
                        requires
                            d <= 2,
                    ;
                }
                assert(pow3((k + 1) as nat) == 3 * pow3(k as nat));
            }
            ans = ans + (d as usize) * mult;
            mult = mult * 3;
            k = k + 1;
        }
        ans
    }

    /// The orientation with the given coordinate: seven base-3 digits, and the eighth twist
    /// making the total a multiple of 3.
    pub fn from_coord(c: usize) -> (r: Self)
        requires
            c < 2187,
        ensures
            r.valid(),
            co_index(r.0, 7) == c,
            twist_total(r.0, 8) % 3 == 0,
    {
        let mut x: usize = c;
        let mut ret: u16 = 0;
        let mut sum: usize = 0;
        let mut k: usize = 0;
        proof {
            lemma_pow3_values();
            assert forall|j: int| 0 <= j < 8 implies lane(ret, j) == 0 by {
                lemma_lane_zero(j);
            }
        }
        while k < 7
            invariant
                k <= 7,
                c == co_index(ret, k as int) + pow3(k as nat) * x,
                x < pow3((7 - k) as nat),
                sum == twist_total(ret, k as int),
                sum <= 2 * k,
                forall|j: int| 0 <= j < k ==> #[trigger] lane(ret, j) < 3,
                forall|j: int| k <= j < 8 ==> #[trigger] lane(ret, j) == 0,
            decreases 7 - k,
        {
            let d = x % 3;
            let ghost old_ret = ret;
            let ghost old_x = x;
            ret = ret | ((d as u16) << (2 * k as u16));
            x = x / 3;
            sum = sum + d;
            proof {
                assert forall|j: int| 0 <= j < 8 implies #[trigger] lane(ret, j) == if j == k {
                    d as int
                } else {
                    lane(old_ret, j)
                } by {
                    lemma_lane_or(old_ret, d as u16, k as int, j);
                }
                lemma_co_index_frame(old_ret, ret, k as int);
                lemma_twist_total_frame(old_ret, ret, k as int);
                assert(lane(ret, k as int) == d);
                assert(co_index(ret, k + 1) == co_index(old_ret, k as int) + d * pow3(k as nat));
                assert(d * pow3(k as nat) == pow3(k as nat) * d) by (nonlinear_arith);
                assert(pow3((k + 1) as nat) == 3 * pow3(k as nat));
                assert(pow3((7 - k) as nat) == 3 * pow3((7 - k - 1) as nat));
                assert(old_x == 3 * x + d);
                assert(pow3(k as nat) * old_x == pow3(k as nat) * d + pow3((k + 1) as nat) * x) by (nonlinear_arith)
                    requires
                        old_x == 3 * x + d,
                        pow3((k + 1) as nat) == 3 * pow3(k as nat),
                ;
                assert(x < pow3((7 - k - 1) as nat)) by (nonlinear_arith)
                    requires
                        old_x < 3 * pow3((7 - k - 1) as nat),
                        x == old_x / 3,
                ;
            }
            k = k + 1;
        }
        let last = (3 - sum % 3) % 3;
        let ghost old_ret = ret;
        ret = ret | ((last as u16) << 14u16);
        proof {
            assert forall|j: int| 0 <= j < 8 implies #[trigger] lane(ret, j) == if j == 7 {
                last as int
            } else {
                lane(old_ret, j)
            } by {
                lemma_lane_or(old_ret, last as u16, 7, j);
            }
            lemma_co_index_frame(old_ret, ret, 7);
            lemma_twist_total_frame(old_ret, ret, 7);
        }
        CO(ret)
    }

    /// Move the twist of each corner slot `i` to slot `p.dest(i)`.
    pub fn swizzle(&self, p: Perm<8>) -> (r: Self)
        requires
            p.in_range(),
        ensures
            r.0 == co_moved(self.0, p, 8),
            p.valid() ==> forall|i: int| 0 <= i < 8 ==> #[trigger] lane(r.0, p.dest_of(i)) == lane(
                self.0,
                i,
            ),
    {
        let mut ret: u16 = 0;
        let mut i: usize = 0;
        while i < 8
            invariant
                i <= 8,
                p.in_range(),
                ret == co_moved(self.0, p, i as int),
            decreases 8 - i,
        {
            let j = p.dest(i);
            assert(p.dest_of(i as int) < 8);
            ret = ret | (((self.0 >> (2 * i as u16)) & 3) << (2 * j as u16));
            i = i + 1;
        }
        proof {
            if p.valid() {
                assert forall|i: int| 0 <= i < 8 implies #[trigger] lane(ret, p.dest_of(i)) == lane(
                    self.0,
                    i,
                ) by {
                    lemma_co_moved_valid(self.0, p, 8, i);
                }
            }
        }
        CO(ret)
    }

    /// Add the twists of `c` to those of `self`, lane by lane, modulo 3.
    pub fn compose(&self, c: Self) -> (r: Self)
        ensures
            r.0 == twist_sum(self.0, c.0),
            self.valid() && c.valid() ==> r@ == co_add(self@, c@) && r.valid(),
    {
        let a = self.0;
        let b = c.0;
        let mut m = a ^ b;
        m = m & (m << 1);
        let m = ((a & b) | m) & 0xaaaa;
        proof {
            lemma_wrapping(a, b);
            lemma_wrapping(a.wrapping_add(b), m);
            lemma_wrapping(a.wrapping_add(b).wrapping_sub(m), m >> 1);
        }
        let r = CO(a.wrapping_add(b).wrapping_sub(m).wrapping_sub(m >> 1));
        proof {
            if self.valid() && c.valid() {
                assert(lane(a, 0) < 3 && lane(a, 1) < 3 && lane(a, 2) < 3 && lane(a, 3) < 3);
                assert(lane(a, 4) < 3 && lane(a, 5) < 3 && lane(a, 6) < 3 && lane(a, 7) < 3);
                assert(lane(b, 0) < 3 && lane(b, 1) < 3 && lane(b, 2) < 3 && lane(b, 3) < 3);
                assert(lane(b, 4) < 3 && lane(b, 5) < 3 && lane(b, 6) < 3 && lane(b, 7) < 3);
                assert forall|k: int| 0 <= k < 8 implies #[trigger] lane(r.0, k) == (lane(a, k)
                    + lane(b, k)) % 3 by {
                    lemma_twist_sum(a, b, k as u16);
                }
                assert(r@ =~= co_add(self@, c@));
            }
        }
        r
    }
}


/// Lane-wise negation of twists modulo 3 (swaps the two bits of every lane).
pub open spec fn twist_neg(x: u16) -> u16 {
    (((x & 0x5555u16) << 1u16) as u16) | ((x & 0xaaaau16) >> 1u16)
}

pub proof fn lemma_twist_neg(x: u16, k: int)
    requires
        0 <= k < 8,
    ensures
        lane(x, k) < 3 ==> lane(twist_neg(x), k) == (3 - lane(x, k)) % 3,
{
    let s = (2 * k) as u16;
    let y = twist_neg(x);
    assert(((x >> s) & 3u16 == 0u16 ==> (y >> s) & 3u16 == 0u16) && ((x >> s) & 3u16 == 1u16
        ==> (y >> s) & 3u16 == 2u16) && ((x >> s) & 3u16 == 2u16 ==> (y >> s) & 3u16 == 1u16))
        by (bit_vector)
        requires
            y == (((x & 0x5555u16) << 1u16) as u16) | ((x & 0xaaaau16) >> 1u16),
            s <= 14,
            s % 2 == 0,
    ;
}

/// A cube state: orientation and permutation of the edges and the corners.
#[derive(Copy, Clone, Debug)]
pub struct Cube {
    // Edge orientation relative to FB-axis
    pub eo: EO,
    pub co: CO,
    pub ep: Perm<12>,
    pub cp: Perm<8>,
}

impl PartialEq for Cube {
    fn eq(&self, other: &Self) -> (r: bool) {
        proof {
            Perm::<12>::lemma_bits_eq(self.ep, other.ep);
            Perm::<8>::lemma_bits_eq(self.cp, other.cp);
        }
        self.eo == other.eo && self.co == other.co && self.ep == other.ep && self.cp == other.cp
    }
}

impl vstd::std_specs::cmp::PartialEqSpecImpl for Cube {
    open spec fn obeys_eq_spec() -> bool {
        true
    }

    open spec fn eq_spec(&self, other: &Self) -> bool {
        self.eo == other.eo && self.co == other.co && self.ep == other.ep && self.cp == other.cp
    }
}

impl Eq for Cube {

}

impl Default for Cube {
    fn default() -> (r: Self)
        ensures
            r.spec_is_solved(),
    {
        Cube { eo: EO::new(), co: CO::new(), ep: Perm::<12>::new(), cp: Perm::<8>::new() }
    }
}

impl From<Move> for Cube {
    /// The cube state reached by applying the move to the solved cube.
    fn from(m: Move) -> (r: Cube) {
        m.cube()
    }
}

impl vstd::std_specs::convert::FromSpecImpl<Move> for Cube {
    open spec fn obeys_from_spec() -> bool {
        true
    }

    open spec fn from_spec(m: Move) -> Cube {
        m.spec_cube()
    }
}

/// Edge part of `a` followed by `b`: each flip is carried along `b`'s edge permutation and
/// then `b`'s flips are added.
pub open spec fn edges_composed(eo: EO, ep: Perm<12>, a: Cube, b: Cube) -> bool {
    &&& forall|j: int|
        0 <= j < 16 ==> #[trigger] bit(eo.0, j) == (EO::moved_bit(a.eo.0, b.ep, j) != bit(
            b.eo.0,
            j,
        ))
    &&& ep.is_compose_of(a.ep, b.ep)
}

/// Corner part of `a` followed by `b`: each twist is carried along `b`'s corner permutation
/// and then `b`'s twists are added.
pub open spec fn corners_composed(co: CO, cp: Perm<8>, a: Cube, b: Cube) -> bool {
    &&& co.0 == twist_sum(co_moved(a.co.0, b.cp, 8), b.co.0)
    &&& cp.is_compose_of(a.cp, b.cp)
}

impl Cube {
    /// The solved cube.
    pub open spec fn spec_is_solved(self) -> bool {
        &&& self.eo.0 == 0
        &&& self.co.0 == 0
        &&& self.ep == Perm::<12>::identity_perm()
        &&& self.cp == Perm::<8>::identity_perm()
    }

    /// A reachable-shaped state: flips only on the twelve edges, twists in 0..3, both
    /// permutations genuine permutations with clear upper nibbles.
    pub open spec fn wf(self) -> bool {
        &&& self.eo.valid()
        &&& self.co.valid()
        &&& self.ep.valid()
        &&& self.ep.upper_clear()
        &&& self.cp.valid()
        &&& self.cp.upper_clear()
    }

    /// `a` and `b` can be composed: the permutations chain within range.
    pub open spec fn composable(a: Cube, b: Cube) -> bool {
        &&& forall|i: int| 0 <= i < 12 ==> #[trigger] b.ep.dest_of(a.ep.dest_of(i)) < 12
        &&& forall|i: int| 0 <= i < 8 ==> #[trigger] b.cp.dest_of(a.cp.dest_of(i)) < 8
        &&& b.cp.in_range()
    }

    /// `self` is `a` followed by `b`.
    pub open spec fn is_compose_of(self, a: Cube, b: Cube) -> bool {
        &&& edges_composed(self.eo, self.ep, a, b)
        &&& corners_composed(self.co, self.cp, a, b)
    }

    pub fn new(eo: EO, co: CO, ep: Perm<12>, cp: Perm<8>) -> (r: Self)
        ensures
            r.eo == eo,
            r.co == co,
            r.ep == ep,
            r.cp == cp,
    {
        Self { eo, co, ep, cp }
    }

    pub fn from_repr(eo: u16, co: u16, ep: u64, cp: u64) -> (r: Self)
        ensures
            r.eo.0 == eo,
            r.co.0 == co,
            r.ep.bits() == ep,
            r.cp.bits() == cp,
    {
        Self {
            eo: EO::from_repr(eo),
            co: CO::from_repr(co),
            ep: Perm::<12>::from_repr(ep),
            cp: Perm::<8>::from_repr(cp),
        }
    }

    /// The edge at the given slot.
    pub fn edge_at(&self, slot: Edge) -> (r: Edge)
        requires
            exists|j: int| 0 <= j < 12 && self.ep.dest_of(j) == slot.spec_coord(),
        ensures
            self.ep.dest_of(r.spec_coord()) == slot.spec_coord(),
            forall|k: int| 0 <= k < r.spec_coord() ==> #[trigger] self.ep.dest_of(k) != slot.spec_coord(),
    {
        let coord = self.ep.source(slot.coord());
        Edge::from_coord(coord)
    }

    /// Which slot the given edge is in.
    pub fn find_edge(&self, edge: Edge) -> (r: Edge)
        requires
            self.ep.dest_of(edge.spec_coord()) < 12,
        ensures
            r.spec_coord() == self.ep.dest_of(edge.spec_coord()),
    {
        let coord = self.ep.dest(edge.coord());
        Edge::from_coord(coord)
    }

    pub fn is_eofb(&self) -> (r: bool)
        ensures
            r == (self.eo.0 == 0),
    {
        self.eo.0 == 0
    }

    pub fn is_coud(&self) -> (r: bool)
        ensures
            r == (self.co.0 == 0),
    {
        self.co.0 == 0
    }

    pub fn is_solved(&self) -> (r: bool)
        ensures
            r == self.spec_is_solved(),
    {
        let e = Perm::<12>::new();
        let c = Perm::<8>::new();
        proof {
            Perm::<12>::lemma_bits_eq(self.ep, e);
            Perm::<8>::lemma_bits_eq(self.cp, c);
        }
        self.eo.0 == 0 && self.co.0 == 0 && self.ep == e && self.cp == c
    }

    pub fn compose_edges(&self, c: &Self) -> (r: (EO, Perm<12>))
        requires
            forall|i: int| 0 <= i < 12 ==> #[trigger] c.ep.dest_of(self.ep.dest_of(i)) < 12,
        ensures
            edges_composed(r.0, r.1, *self, *c),
    {
        let sw = self.eo.swizzle(c.ep);
        let eo = sw.compose(c.eo);
        let ep = self.ep.compose(c.ep);
        proof {
            assert forall|j: int| 0 <= j < 16 implies #[trigger] bit(eo.0, j) == (EO::moved_bit(
                self.eo.0,
                c.ep,
                j,
            ) != bit(c.eo.0, j)) by {
                lemma_bit_xor(sw.0, c.eo.0, j);
            }
        }
        (eo, ep)
    }

    pub fn compose_corners(&self, c: &Self) -> (r: (CO, Perm<8>))
        requires
            forall|i: int| 0 <= i < 8 ==> #[trigger] c.cp.dest_of(self.cp.dest_of(i)) < 8,
            c.cp.in_range(),
        ensures
            corners_composed(r.0, r.1, *self, *c),
    {
        let co = self.co.swizzle(c.cp).compose(c.co);
        let cp = self.cp.compose(c.cp);
        (co, cp)
    }

    /// `self` followed by `c`.
    pub fn compose(&self, c: &Self) -> (r: Self)
        requires
            Self::composable(*self, *c),
        ensures
            r.is_compose_of(*self, *c),
    {
        let (eo, ep) = self.compose_edges(c);
        let (co, cp) = self.compose_corners(c);
        Self { eo, co, ep, cp }
    }

    /// `self` undoes `a`: inverse permutations, and the flips and twists of `a` carried
    /// back and (for twists) negated.
    pub open spec fn is_inverse_of(self, a: Cube) -> bool {
        &&& self.ep.is_inverse_of(a.ep)
        &&& self.cp.is_inverse_of(a.cp)
        &&& forall|j: int| 0 <= j < 16 ==> #[trigger] bit(self.eo.0, j) == EO::moved_bit(a.eo.0, self.ep, j)
        &&& self.co.0 == twist_neg(co_moved(a.co.0, self.cp, 8))
    }

    /// The inverse of the edge part of the cube; the corners are kept.
    pub fn inverse_edges(&self) -> (r: Self)
        requires
            self.ep.valid(),
        ensures
            r.ep.is_inverse_of(self.ep),
            r.ep.valid(),
            forall|j: int| 0 <= j < 16 ==> #[trigger] bit(r.eo.0, j) == EO::moved_bit(self.eo.0, r.ep, j),
            r.co == self.co,
            r.cp == self.cp,
    {
        let ep = self.ep.inverse();
        let eo = self.eo.swizzle(ep);
        Self { eo, co: self.co, ep, cp: self.cp }
    }

    /// The inverse of the corner part of the cube; the edges are kept.
    pub fn inverse_corners(&self) -> (r: Self)
        requires
            self.cp.valid(),
        ensures
            r.cp.is_inverse_of(self.cp),
            r.cp.valid(),
            r.co.0 == twist_neg(co_moved(self.co.0, r.cp, 8)),
            r.eo == self.eo,
            r.ep == self.ep,
    {
        let cp = self.cp.inverse();
        let moved = self.co.swizzle(cp);
        let x = moved.0;
        let co = CO((((x & 0x5555) << 1) as u16) | ((x & 0xaaaa) >> 1));
        Self { eo: self.eo, co, ep: self.ep, cp }
    }

    /// The inverse cube: composing with it in either order gives the solved cube.
    pub fn inverse(&self) -> (r: Self)
        requires
            self.ep.valid(),
            self.cp.valid(),
        ensures
            r.is_inverse_of(*self),
            r.ep.valid(),
            r.cp.valid(),
    {
        let e = self.inverse_edges();
        let c = self.inverse_corners();
        Self { eo: e.eo, co: c.co, ep: e.ep, cp: c.cp }
    }
}

/// The cube reached from `c` by the move `m`.
pub open spec fn after_move(c: Cube, m: Move) -> Cube {
    choose|r: Cube| r.is_compose_of(c, m.spec_cube())
}

/// The cube reached from `c` by the moves `ms`, in order.
pub open spec fn after_moves(c: Cube, ms: Seq<Move>) -> Cube
    decreases ms.len(),
{
    if ms.len() == 0 {
        c
    } else {
        after_move(after_moves(c, ms.drop_last()), ms.last())
    }
}

/// The composition of two cubes is determined by them.
pub proof fn lemma_compose_unique(r1: Cube, r2: Cube, a: Cube, b: Cube)
    requires
        r1.is_compose_of(a, b),
        r2.is_compose_of(a, b),
    ensures
        r1 == r2,
{
    crate::sym::lemma_edges_composed_unique(r1.eo, r1.ep, r2.eo, r2.ep, a, b);
    crate::sym::lemma_corners_composed_unique(r1.co, r1.cp, r2.co, r2.cp, a, b);
}

/// The edge permutation keeps the four E-slice edges (numbers 8 to 11) among themselves.
pub open spec fn keeps_eslice(p: Perm<12>) -> bool {
    forall|i: int| 0 <= i < 12 ==> (#[trigger] p.dest_of(i) >= 8 <==> i >= 8)
}

/// Composing permutations that keep the E slice keeps it.
pub proof fn lemma_keeps_eslice_compose(r: Perm<12>, p: Perm<12>, q: Perm<12>)
    requires
        p.in_range(),
        keeps_eslice(p),
        keeps_eslice(q),
        r.is_compose_of(p, q),
    ensures
        keeps_eslice(r),
{
    assert forall|i: int| 0 <= i < 12 implies (#[trigger] r.dest_of(i) >= 8 <==> i >= 8) by {
        assert(p.dest_of(i) < 12);
    }
}

/// The inverse of a permutation that keeps the E slice keeps it.
pub proof fn lemma_keeps_eslice_inverse(inv: Perm<12>, p: Perm<12>)
    requires
        p.valid(),
        keeps_eslice(p),
        inv.is_inverse_of(p),
    ensures
        keeps_eslice(inv),
{
    assert forall|j: int| 0 <= j < 12 implies (#[trigger] inv.dest_of(j) >= 8 <==> j >= 8) by {
        p.lemma_has_source(j);
        let i = choose|i: int| 0 <= i < 12 && p.dest_of(i) == j;
        assert(inv.dest_of(p.dest_of(i)) == i);
    }
}

/// The inverse of the corners of a well-formed cube has well-formed corners.
pub proof fn lemma_inverse_corners_valid(a: Cube, inv: Cube)
    requires
        a.co.valid(),
        a.cp.valid(),
        inv.cp.is_inverse_of(a.cp),
        inv.co.0 == twist_neg(co_moved(a.co.0, inv.cp, 8)),
    ensures
        inv.co.valid(),
        inv.cp.valid(),
{
    Perm::<8>::lemma_inverse_valid(inv.cp, a.cp);
    lemma_co_moved_lanes(a.co.0, inv.cp);
    assert forall|k: int| 0 <= k < 8 implies #[trigger] lane(inv.co.0, k) < 3 by {
        lemma_twist_neg(co_moved(a.co.0, inv.cp, 8), k);
    }
}

/// Edge part of a composition of well-formed edge parts is well formed.
pub proof fn lemma_edges_composed_wf(eo: EO, ep: Perm<12>, a: Cube, b: Cube)
    requires
        a.eo.valid(),
        a.ep.valid(),
        b.eo.valid(),
        b.ep.valid(),
        edges_composed(eo, ep, a, b),
    ensures
        eo.valid(),
        ep.valid(),
        ep.upper_clear(),
{
    Perm::<12>::law_compose_valid(ep, a.ep, b.ep);
    assert forall|j: int| 12 <= j < 16 implies !#[trigger] bit(eo.0, j) by {
        lemma_moved_bit_valid(a.eo.0, b.ep, 0, j);
    }
}

/// Corner part of a composition of well-formed corner parts is well formed.
pub proof fn lemma_corners_composed_wf(co: CO, cp: Perm<8>, a: Cube, b: Cube)
    requires
        a.co.valid(),
        a.cp.valid(),
        b.co.valid(),
        b.cp.valid(),
        corners_composed(co, cp, a, b),
    ensures
        co.valid(),
        cp.valid(),
        cp.upper_clear(),
{
    Perm::<8>::law_compose_valid(cp, a.cp, b.cp);
    lemma_co_moved_lanes(a.co.0, b.cp);
    lemma_twist_sum_lanes(co_moved(a.co.0, b.cp, 8), b.co.0);
}

/// The set of the four E-slice edges FR, FL, BL, BR (bits 8 to 11).
pub open spec fn eslice_mask() -> u16 {
    0xf00u16
}

/// The E-slice mask, built from the edges' coordinates, holds four elements, and ranking
/// its images fits in a `usize`.
pub proof fn lemma_eslice_mask(fl: u16, fr: u16, bl: u16, br: u16)
    requires
        fl == 9,
        fr == 8,
        bl == 10,
        br == 11,
    ensures
        ((1u16 << fl) as u16 | (1u16 << fr) as u16 | (1u16 << bl) as u16 | (1u16 << br) as u16)
            == eslice_mask(),
        popcount(eslice_mask(), 16) == 4,
        rank_fits(4),
        forall|j: int| 0 <= j < 16 ==> (#[trigger] bit(eslice_mask(), j) <==> 8 <= j < 12),
{
    let m = eslice_mask();
    assert(((1u16 << fl) as u16 | (1u16 << fr) as u16 | (1u16 << bl) as u16 | (1u16 << br) as u16)
        == 0xf00u16 && (m >> 0u16) & 1u16 != 1u16 && (m >> 1u16) & 1u16 != 1u16 && (m >> 2u16)
        & 1u16 != 1u16 && (m >> 3u16) & 1u16 != 1u16 && (m >> 4u16) & 1u16 != 1u16 && (m >> 5u16)
        & 1u16 != 1u16 && (m >> 6u16) & 1u16 != 1u16 && (m >> 7u16) & 1u16 != 1u16 && (m >> 8u16)
        & 1u16 == 1u16 && (m >> 9u16) & 1u16 == 1u16 && (m >> 10u16) & 1u16 == 1u16 && (m >> 11u16)
        & 1u16 == 1u16 && (m >> 12u16) & 1u16 != 1u16 && (m >> 13u16) & 1u16 != 1u16 && (m >> 14u16)
        & 1u16 != 1u16 && (m >> 15u16) & 1u16 != 1u16) by (bit_vector)
        requires
            fl == 9,
            fr == 8,
            bl == 10,
            br == 11,
            m == 0xf00u16,
    ;
    reveal_with_fuel(popcount, 17);
    crate::math::lemma_rank_values();
    assert forall|j: int| 0 <= j < 16 implies (#[trigger] bit(eslice_mask(), j) <==> 8 <= j < 12) by {
        if j == 0 {
        } else if j == 1 {
        } else if j == 2 {
        } else if j == 3 {
        } else if j == 4 {
        } else if j == 5 {
        } else if j == 6 {
        } else if j == 7 {
        } else if j == 8 {
        } else if j == 9 {
        } else if j == 10 {
        } else if j == 11 {
        } else if j == 12 {
        } else if j == 13 {
        } else if j == 14 {
        } else {
        }
    }
}

/// The inverse of a well-formed cube is well-formed.
pub proof fn lemma_inverse_wf(a: Cube, inv: Cube)
    requires
        a.wf(),
        inv.is_inverse_of(a),
    ensures
        inv.wf(),
{
    Perm::<12>::lemma_inverse_valid(inv.ep, a.ep);
    Perm::<8>::lemma_inverse_valid(inv.cp, a.cp);
    assert forall|j: int| 12 <= j < 16 implies !#[trigger] bit(inv.eo.0, j) by {
        lemma_moved_bit_valid(a.eo.0, inv.ep, 0, j);
    }
    lemma_co_moved_lanes(a.co.0, inv.cp);
    assert forall|k: int| 0 <= k < 8 implies #[trigger] lane(inv.co.0, k) < 3 by {
        lemma_twist_neg(co_moved(a.co.0, inv.cp, 8), k);
    }
}

/// Along a permutation, the flip at `i` lands at `p.dest(i)`, and nothing lands beyond
/// the twelve edges.
pub proof fn lemma_moved_bit_valid(x: u16, p: Perm<12>, i: int, j: int)
    requires
        p.valid(),
        0 <= i < 12,
        12 <= j < 16,
    ensures
        EO::moved_bit(x, p, p.dest_of(i)) == bit(x, i),
        !EO::moved_bit(x, p, j),
{
    if EO::moved_bit(x, p, p.dest_of(i)) {
        let k = choose|k: int| 0 <= k < 12 && bit(x, k) && #[trigger] p.dest_of(k) == p.dest_of(i);
        if k != i {
            assert(p.dest_of(k) != p.dest_of(i));
        }
    }
    if bit(x, i) {
        assert(0 <= i < 12 && bit(x, i) && p.dest_of(i) == p.dest_of(i));
    }
    if EO::moved_bit(x, p, j) {
        let k = choose|k: int| 0 <= k < 12 && bit(x, k) && #[trigger] p.dest_of(k) == j;
        assert(p.dest_of(k) < 12);
    }
}

/// Along a permutation, the twist at `i` lands at `p.dest(i)`, and valid twists stay valid.
pub proof fn lemma_co_moved_lanes(x: u16, p: Perm<8>)
    requires
        p.valid(),
        twists_valid(x),
    ensures
        forall|i: int| 0 <= i < 8 ==> #[trigger] lane(co_moved(x, p, 8), p.dest_of(i)) == lane(x, i),
        twists_valid(co_moved(x, p, 8)),
{
    assert forall|i: int| 0 <= i < 8 implies #[trigger] lane(co_moved(x, p, 8), p.dest_of(i)) == lane(
        x,
        i,
    ) by {
        lemma_co_moved_valid(x, p, 8, i);
    }
    assert forall|j: int| 0 <= j < 8 implies #[trigger] lane(co_moved(x, p, 8), j) < 3 by {
        p.lemma_has_source(j);
        let i = choose|i: int| 0 <= i < 8 && p.dest_of(i) == j;
        lemma_co_moved_valid(x, p, 8, i);
        assert(lane(x, i) < 3);
    }
}

/// Lanes of a twist sum of valid twists.
pub proof fn lemma_twist_sum_lanes(a: u16, b: u16)
    requires
        twists_valid(a),
        twists_valid(b),
    ensures
        forall|k: int| 0 <= k < 8 ==> #[trigger] lane(twist_sum(a, b), k) == (lane(a, k) + lane(b, k)) % 3,
        twists_valid(twist_sum(a, b)),
{
    assert(lane(a, 0) < 3 && lane(a, 1) < 3 && lane(a, 2) < 3 && lane(a, 3) < 3);
    assert(lane(a, 4) < 3 && lane(a, 5) < 3 && lane(a, 6) < 3 && lane(a, 7) < 3);
    assert(lane(b, 0) < 3 && lane(b, 1) < 3 && lane(b, 2) < 3 && lane(b, 3) < 3);
    assert(lane(b, 4) < 3 && lane(b, 5) < 3 && lane(b, 6) < 3 && lane(b, 7) < 3);
    assert forall|k: int| 0 <= k < 8 implies #[trigger] lane(twist_sum(a, b), k) == (lane(a, k)
        + lane(b, k)) % 3 by {
        lemma_twist_sum(a, b, k as u16);
    }
}

impl Cube {
    /// Two well-formed cubes can always be composed.
    pub proof fn lemma_wf_composable(a: Cube, b: Cube)
        requires
            a.wf(),
            b.wf(),
        ensures
            Self::composable(a, b),
    {
        assert forall|i: int| 0 <= i < 12 implies #[trigger] b.ep.dest_of(a.ep.dest_of(i)) < 12 by {
            assert(a.ep.dest_of(i) < 12);
        }
        assert forall|i: int| 0 <= i < 8 implies #[trigger] b.cp.dest_of(a.cp.dest_of(i)) < 8 by {
            assert(a.cp.dest_of(i) < 8);
        }
    }

    /// Under composition, the twist totals add modulo 3 and the numbers of flips add modulo
    /// 2.
    pub proof fn law_compose_orientations(a: Cube, b: Cube, r: Cube)
        requires
            a.wf(),
            b.wf(),
            r.is_compose_of(a, b),
        ensures
            twist_total(r.co.0, 8) % 3 == (twist_total(a.co.0, 8) + twist_total(b.co.0, 8)) % 3,
            popcount(r.eo.0, 12) % 2 == (popcount(a.eo.0, 12) + popcount(b.eo.0, 12)) % 2,
    {
        lemma_co_moved_lanes(a.co.0, b.cp);
        let mv = co_moved(a.co.0, b.cp, 8);
        lemma_twist_total_perm(a.co.0, mv, b.cp);
        lemma_twist_total_sum(mv, b.co.0, 8);
        let fa = |i: int| bit(a.eo.0, i);
        let g = |i: int| EO::moved_bit(a.eo.0, b.ep, i);
        let h = |i: int| bit(b.eo.0, i);
        let d = |i: int| b.ep.dest_of(i);
        assert forall|i: int| 0 <= i < 12 implies 0 <= #[trigger] d(i) < 12 by {
            assert(b.ep.dest_of(i) < 12);
        }
        assert forall|i: int, j: int| 0 <= i < 12 && 0 <= j < 12 && i != j implies #[trigger] d(i)
            != #[trigger] d(j) by {
            assert(b.ep.dest_of(i) != b.ep.dest_of(j));
        }
        assert forall|i: int| 0 <= i < 12 implies g(#[trigger] d(i)) == fa(i) by {
            if fa(i) {
                assert(0 <= i < 12 && bit(a.eo.0, i) && b.ep.dest_of(i) == d(i));
            }
            if g(d(i)) {
                let k = choose|k: int| 0 <= k < 12 && bit(a.eo.0, k) && #[trigger] b.ep.dest_of(k) == d(i);
                if k != i {
                    assert(b.ep.dest_of(k) != b.ep.dest_of(i));
                }
            }
        }
        lemma_count_below_perm(fa, g, d, 12);
        lemma_count_below_xor(g, h, 12);
        assert forall|i: int| 0 <= i < 12 implies #[trigger] bit(r.eo.0, i) == (g(i) != h(i)) by {
            assert(bit(r.eo.0, i) == (EO::moved_bit(a.eo.0, b.ep, i) != bit(b.eo.0, i)));
        }
        lemma_count_below_ext(|i: int| bit(r.eo.0, i), |i: int| g(i) != h(i), 12);
        lemma_popcount_count(r.eo.0, 12);
        lemma_popcount_count(a.eo.0, 12);
        lemma_popcount_count(b.eo.0, 12);
    }

    /// Composing well-formed cubes gives a well-formed cube.
    pub proof fn law_compose_wf(a: Cube, b: Cube, r: Cube)
        requires
            a.wf(),
            b.wf(),
            r.is_compose_of(a, b),
        ensures
            r.wf(),
    {
        Perm::<12>::law_compose_valid(r.ep, a.ep, b.ep);
        Perm::<8>::law_compose_valid(r.cp, a.cp, b.cp);
        lemma_co_moved_lanes(a.co.0, b.cp);
        lemma_twist_sum_lanes(co_moved(a.co.0, b.cp, 8), b.co.0);
        assert forall|j: int| 12 <= j < 16 implies !#[trigger] bit(r.eo.0, j) by {
            lemma_moved_bit_valid(a.eo.0, b.ep, 0, j);
        }
    }

    /// Cube composition is associative (on well-formed cubes).
    pub proof fn law_compose_assoc(
        a: Cube,
        b: Cube,
        c: Cube,
        ab: Cube,
        ab_c: Cube,
        bc: Cube,
        a_bc: Cube,
    )
        requires
            a.wf(),
            b.wf(),
            c.wf(),
            ab.is_compose_of(a, b),
            ab_c.is_compose_of(ab, c),
            bc.is_compose_of(b, c),
            a_bc.is_compose_of(a, bc),
        ensures
            ab_c == a_bc,
    {
        Self::law_compose_wf(a, b, ab);
        Self::law_compose_wf(b, c, bc);
        Self::law_compose_wf(ab, c, ab_c);
        Self::law_compose_wf(a, bc, a_bc);
        Perm::<12>::law_compose_assoc(a.ep, b.ep, c.ep, ab.ep, ab_c.ep, bc.ep, a_bc.ep);
        Perm::<8>::law_compose_assoc(a.cp, b.cp, c.cp, ab.cp, ab_c.cp, bc.cp, a_bc.cp);
        assert forall|j: int| 0 <= j < 16 implies bit(ab_c.eo.0, j) == bit(a_bc.eo.0, j) by {
            if j < 12 {
                c.ep.lemma_has_source(j);
                let i = choose|i: int| 0 <= i < 12 && c.ep.dest_of(i) == j;
                b.ep.lemma_has_source(i);
                let i2 = choose|i2: int| 0 <= i2 < 12 && b.ep.dest_of(i2) == i;
                lemma_moved_bit_valid(ab.eo.0, c.ep, i, 12);
                lemma_moved_bit_valid(a.eo.0, b.ep, i2, 12);
                lemma_moved_bit_valid(a.eo.0, bc.ep, i2, 12);
                lemma_moved_bit_valid(b.eo.0, c.ep, i, 12);
                assert(bc.ep.dest_of(i2) == j);
            }
        }
        lemma_bit_ext(ab_c.eo.0, a_bc.eo.0);
        lemma_co_moved_lanes(a.co.0, b.cp);
        lemma_co_moved_lanes(ab.co.0, c.cp);
        lemma_co_moved_lanes(a.co.0, bc.cp);
        lemma_co_moved_lanes(b.co.0, c.cp);
        lemma_twist_sum_lanes(co_moved(a.co.0, b.cp, 8), b.co.0);
        lemma_twist_sum_lanes(co_moved(ab.co.0, c.cp, 8), c.co.0);
        lemma_twist_sum_lanes(co_moved(b.co.0, c.cp, 8), c.co.0);
        lemma_twist_sum_lanes(co_moved(a.co.0, bc.cp, 8), bc.co.0);
        assert forall|j: int| 0 <= j < 8 implies lane(ab_c.co.0, j) == lane(a_bc.co.0, j) by {
            c.cp.lemma_has_source(j);
            let i = choose|i: int| 0 <= i < 8 && c.cp.dest_of(i) == j;
            b.cp.lemma_has_source(i);
            let i2 = choose|i2: int| 0 <= i2 < 8 && b.cp.dest_of(i2) == i;
            assert(bc.cp.dest_of(i2) == j);
            let x = lane(a.co.0, i2);
            let y = lane(b.co.0, i);
            let z = lane(c.co.0, j);
            assert(lane(ab.co.0, i) == (x + y) % 3);
            assert(lane(bc.co.0, j) == (y + z) % 3);
            assert(((x + y) % 3 + z) % 3 == (x + (y + z) % 3) % 3) by (nonlinear_arith)
                requires
                    0 <= x,
                    0 <= y,
                    0 <= z,
            ;
        }
        lemma_lane_ext(ab_c.co.0, a_bc.co.0);
    }

    /// The solved cube is well-formed.
    pub proof fn lemma_solved_wf(c: Cube)
        requires
            c.spec_is_solved(),
        ensures
            c.wf(),
    {
        Perm::<12>::lemma_identity_perm();
        Perm::<8>::lemma_identity_perm();
        assert forall|j: int| 12 <= j < 16 implies !#[trigger] bit(c.eo.0, j) by {
            lemma_bit_zero(j);
        }
        assert forall|k: int| 0 <= k < 8 implies #[trigger] lane(c.co.0, k) < 3 by {
            lemma_lane_zero(k);
        }
    }

    /// Composing with the solved cube on the right changes nothing.
    pub proof fn lemma_compose_right_identity(a: Cube, e: Cube, ae: Cube)
        requires
            a.wf(),
            e.spec_is_solved(),
            ae.is_compose_of(a, e),
        ensures
            ae == a,
    {
        Perm::<12>::lemma_identity_perm();
        Perm::<8>::lemma_identity_perm();
        assert forall|i: int| 0 <= i < 12 implies ae.ep.dest_of(i) == a.ep.dest_of(i) by {
            assert(a.ep.dest_of(i) < 12);
        }
        ae.ep.lemma_ext(a.ep);
        assert forall|i: int| 0 <= i < 8 implies ae.cp.dest_of(i) == a.cp.dest_of(i) by {
            assert(a.cp.dest_of(i) < 8);
        }
        ae.cp.lemma_ext(a.cp);
        assert forall|j: int| 0 <= j < 16 implies bit(ae.eo.0, j) == bit(a.eo.0, j) by {
            lemma_bit_zero(j);
            if j < 12 {
                lemma_moved_bit_valid(a.eo.0, e.ep, j, 12);
            } else {
                lemma_moved_bit_valid(a.eo.0, e.ep, 0, j);
            }
        }
        lemma_bit_ext(ae.eo.0, a.eo.0);
        assert(twists_valid(0u16)) by {
            assert forall|k: int| 0 <= k < 8 implies #[trigger] lane(0u16, k) < 3 by {
                lemma_lane_zero(k);
            }
        }
        lemma_co_moved_lanes(a.co.0, e.cp);
        lemma_twist_sum_lanes(co_moved(a.co.0, e.cp, 8), 0u16);
        assert forall|j: int| 0 <= j < 8 implies lane(ae.co.0, j) == lane(a.co.0, j) by {
            lemma_lane_zero(j);
            assert(e.cp.dest_of(j) == j);
        }
        lemma_lane_ext(ae.co.0, a.co.0);
    }

    /// Composing with the solved cube on the left changes nothing.
    pub proof fn lemma_compose_left_identity(a: Cube, e: Cube, ea: Cube)
        requires
            a.wf(),
            e.spec_is_solved(),
            ea.is_compose_of(e, a),
        ensures
            ea == a,
    {
        Perm::<12>::lemma_identity_perm();
        Perm::<8>::lemma_identity_perm();
        ea.ep.lemma_ext(a.ep);
        ea.cp.lemma_ext(a.cp);
        assert forall|j: int| 0 <= j < 16 implies bit(ea.eo.0, j) == bit(a.eo.0, j) by {
            lemma_bit_zero(j);
            if EO::moved_bit(e.eo.0, a.ep, j) {
                let k = choose|k: int| 0 <= k < 12 && bit(e.eo.0, k) && #[trigger] a.ep.dest_of(k) == j;
                lemma_bit_zero(k);
            }
        }
        lemma_bit_ext(ea.eo.0, a.eo.0);
        assert(twists_valid(0u16)) by {
            assert forall|k: int| 0 <= k < 8 implies #[trigger] lane(0u16, k) < 3 by {
                lemma_lane_zero(k);
            }
        }
        lemma_co_moved_lanes(0u16, a.cp);
        lemma_twist_sum_lanes(co_moved(0u16, a.cp, 8), a.co.0);
        assert forall|j: int| 0 <= j < 8 implies lane(ea.co.0, j) == lane(a.co.0, j) by {
            a.cp.lemma_has_source(j);
            let i = choose|i: int| 0 <= i < 8 && a.cp.dest_of(i) == j;
            lemma_lane_zero(i);
        }
        lemma_lane_ext(ea.co.0, a.co.0);
    }

    /// The solved cube is neutral for composition on both sides.
    pub proof fn law_compose_identity(a: Cube, e: Cube, ae: Cube, ea: Cube)
        requires
            a.wf(),
            e.spec_is_solved(),
            ae.is_compose_of(a, e),
            ea.is_compose_of(e, a),
        ensures
            ae == a,
            ea == a,
    {
        Self::lemma_compose_right_identity(a, e, ae);
        Self::lemma_compose_left_identity(a, e, ea);
    }

    /// `a` is both the solved cube followed by `a` and `a` followed by the solved cube.
    pub proof fn lemma_identity_composes(a: Cube, e: Cube)
        requires
            a.wf(),
            e.spec_is_solved(),
        ensures
            a.is_compose_of(e, a),
            a.is_compose_of(a, e),
    {
        Perm::<12>::lemma_identity_perm();
        Perm::<8>::lemma_identity_perm();
        assert forall|j: int| 0 <= j < 16 implies #[trigger] bit(a.eo.0, j) == (EO::moved_bit(
            e.eo.0,
            a.ep,
            j,
        ) != bit(a.eo.0, j)) by {
            if EO::moved_bit(e.eo.0, a.ep, j) {
                let k = choose|k: int| 0 <= k < 12 && bit(e.eo.0, k) && #[trigger] a.ep.dest_of(k) == j;
                lemma_bit_zero(k);
            }
        }
        assert forall|i: int| 0 <= i < 12 implies #[trigger] a.ep.dest_of(i) == a.ep.dest_of(
            e.ep.dest_of(i),
        ) by {}
        assert forall|j: int| 0 <= j < 16 implies #[trigger] bit(a.eo.0, j) == (EO::moved_bit(
            a.eo.0,
            e.ep,
            j,
        ) != bit(e.eo.0, j)) by {
            lemma_bit_zero(j);
            if j < 12 {
                lemma_moved_bit_valid(a.eo.0, e.ep, j, 12);
            } else {
                lemma_moved_bit_valid(a.eo.0, e.ep, 0, j);
            }
        }
        assert forall|i: int| 0 <= i < 12 implies #[trigger] a.ep.dest_of(i) == e.ep.dest_of(
            a.ep.dest_of(i),
        ) by {
            assert(a.ep.dest_of(i) < 12);
        }
        assert forall|i: int| 0 <= i < 8 implies #[trigger] a.cp.dest_of(i) == a.cp.dest_of(
            e.cp.dest_of(i),
        ) by {}
        assert forall|i: int| 0 <= i < 8 implies #[trigger] a.cp.dest_of(i) == e.cp.dest_of(
            a.cp.dest_of(i),
        ) by {
            assert(a.cp.dest_of(i) < 8);
        }
        assert(twists_valid(0u16)) by {
            assert forall|k: int| 0 <= k < 8 implies #[trigger] lane(0u16, k) < 3 by {
                lemma_lane_zero(k);
            }
        }
        lemma_co_moved_lanes(0u16, a.cp);
        lemma_twist_sum_lanes(co_moved(0u16, a.cp, 8), a.co.0);
        assert forall|j: int| 0 <= j < 8 implies lane(twist_sum(co_moved(0u16, a.cp, 8), a.co.0), j)
            == lane(a.co.0, j) by {
            a.cp.lemma_has_source(j);
            let i = choose|i: int| 0 <= i < 8 && a.cp.dest_of(i) == j;
            lemma_lane_zero(i);
        }
        lemma_lane_ext(twist_sum(co_moved(0u16, a.cp, 8), a.co.0), a.co.0);
        lemma_co_moved_lanes(a.co.0, e.cp);
        lemma_twist_sum_lanes(co_moved(a.co.0, e.cp, 8), 0u16);
        assert forall|j: int| 0 <= j < 8 implies lane(twist_sum(co_moved(a.co.0, e.cp, 8), 0u16), j)
            == lane(a.co.0, j) by {
            lemma_lane_zero(j);
            assert(e.cp.dest_of(j) == j);
        }
        lemma_lane_ext(twist_sum(co_moved(a.co.0, e.cp, 8), 0u16), a.co.0);
    }

    /// The solved cube is its own inverse.
    pub proof fn lemma_solved_self_inverse(e: Cube)
        requires
            e.spec_is_solved(),
        ensures
            e.is_inverse_of(e),
    {
        Perm::<12>::lemma_identity_perm();
        Perm::<8>::lemma_identity_perm();
        assert forall|j: int| 0 <= j < 16 implies #[trigger] bit(e.eo.0, j) == EO::moved_bit(
            e.eo.0,
            e.ep,
            j,
        ) by {
            lemma_bit_zero(j);
            if EO::moved_bit(e.eo.0, e.ep, j) {
                let k = choose|k: int| 0 <= k < 12 && bit(e.eo.0, k) && #[trigger] e.ep.dest_of(k) == j;
                lemma_bit_zero(k);
            }
        }
        assert(twists_valid(0u16)) by {
            assert forall|k: int| 0 <= k < 8 implies #[trigger] lane(0u16, k) < 3 by {
                lemma_lane_zero(k);
            }
        }
        lemma_co_moved_lanes(0u16, e.cp);
        let m = co_moved(0u16, e.cp, 8);
        assert forall|j: int| 0 <= j < 8 implies lane(twist_neg(m), j) == lane(0u16, j) by {
            lemma_lane_zero(j);
            assert(e.cp.dest_of(j) == j);
            lemma_twist_neg(m, j);
        }
        lemma_lane_ext(twist_neg(m), 0u16);
    }

    /// A cube followed by its inverse is solved.
    pub proof fn lemma_compose_inverse_right(a: Cube, inv: Cube, a_inv: Cube)
        requires
            a.wf(),
            inv.is_inverse_of(a),
            a_inv.is_compose_of(a, inv),
        ensures
            a_inv.spec_is_solved(),
    {
        Perm::<12>::lemma_inverse_valid(inv.ep, a.ep);
        Perm::<8>::lemma_inverse_valid(inv.cp, a.cp);
        Perm::<12>::lemma_compose_inverse_right(a.ep, inv.ep, a_inv.ep);
        Perm::<8>::lemma_compose_inverse_right(a.cp, inv.cp, a_inv.cp);
        a_inv.ep.lemma_is_identity_eq();
        a_inv.cp.lemma_is_identity_eq();
        assert forall|j: int| 0 <= j < 16 implies bit(a_inv.eo.0, j) == bit(0u16, j) by {
            lemma_bit_zero(j);
        }
        lemma_bit_ext(a_inv.eo.0, 0u16);
        lemma_co_moved_lanes(a.co.0, inv.cp);
        let m = co_moved(a.co.0, inv.cp, 8);
        assert(twists_valid(inv.co.0)) by {
            assert forall|k: int| 0 <= k < 8 implies #[trigger] lane(inv.co.0, k) < 3 by {
                lemma_twist_neg(m, k);
            }
        }
        lemma_twist_sum_lanes(m, inv.co.0);
        assert forall|j: int| 0 <= j < 8 implies lane(a_inv.co.0, j) == lane(0u16, j) by {
            lemma_lane_zero(j);
            lemma_twist_neg(m, j);
        }
        lemma_lane_ext(a_inv.co.0, 0u16);
    }

    /// The inverse of a cube followed by the cube is solved.
    pub proof fn lemma_compose_inverse_left(a: Cube, inv: Cube, inv_a: Cube)
        requires
            a.wf(),
            inv.is_inverse_of(a),
            inv_a.is_compose_of(inv, a),
        ensures
            inv_a.spec_is_solved(),
    {
        Perm::<12>::lemma_inverse_valid(inv.ep, a.ep);
        Perm::<8>::lemma_inverse_valid(inv.cp, a.cp);
        Perm::<12>::lemma_compose_inverse_left(a.ep, inv.ep, inv_a.ep);
        Perm::<8>::lemma_compose_inverse_left(a.cp, inv.cp, inv_a.cp);
        inv_a.ep.lemma_is_identity_eq();
        inv_a.cp.lemma_is_identity_eq();
        assert forall|j: int| 0 <= j < 16 implies bit(inv_a.eo.0, j) == bit(0u16, j) by {
            lemma_bit_zero(j);
            if j < 12 {
                a.ep.lemma_has_source(j);
                let i = choose|i: int| 0 <= i < 12 && a.ep.dest_of(i) == j;
                lemma_moved_bit_valid(inv.eo.0, a.ep, i, 12);
                lemma_moved_bit_valid(a.eo.0, inv.ep, j, 12);
                assert(inv.ep.dest_of(j) == i);
            } else {
                lemma_moved_bit_valid(inv.eo.0, a.ep, 0, j);
            }
        }
        lemma_bit_ext(inv_a.eo.0, 0u16);
        lemma_co_moved_lanes(a.co.0, inv.cp);
        let m = co_moved(a.co.0, inv.cp, 8);
        assert(twists_valid(inv.co.0)) by {
            assert forall|k: int| 0 <= k < 8 implies #[trigger] lane(inv.co.0, k) < 3 by {
                lemma_twist_neg(m, k);
            }
        }
        lemma_co_moved_lanes(inv.co.0, a.cp);
        lemma_twist_sum_lanes(co_moved(inv.co.0, a.cp, 8), a.co.0);
        assert forall|j: int| 0 <= j < 8 implies lane(inv_a.co.0, j) == lane(0u16, j) by {
            lemma_lane_zero(j);
            a.cp.lemma_has_source(j);
            let i = choose|i: int| 0 <= i < 8 && a.cp.dest_of(i) == j;
            assert(inv.cp.dest_of(j) == i);
            lemma_twist_neg(m, i);
            assert(lane(m, i) == lane(a.co.0, j));
        }
        lemma_lane_ext(inv_a.co.0, 0u16);
    }

    /// A cube composed with its inverse, in either order, is solved.
    pub proof fn law_compose_inverse(a: Cube, inv: Cube, a_inv: Cube, inv_a: Cube)
        requires
            a.wf(),
            inv.is_inverse_of(a),
            a_inv.is_compose_of(a, inv),
            inv_a.is_compose_of(inv, a),
        ensures
            a_inv.spec_is_solved(),
            inv_a.spec_is_solved(),
    {
        Self::lemma_compose_inverse_right(a, inv, a_inv);
        Self::lemma_compose_inverse_left(a, inv, inv_a);
    }

    /// Apply a move to the edges only; the corners are kept.
    pub fn apply_move_edges(&self, m: Move) -> (r: Self)
        requires
            self.ep.in_range(),
        ensures
            edges_composed(r.eo, r.ep, *self, m.spec_cube()),
            r.co == self.co,
            r.cp == self.cp,
    {
        let mc = m.cube();
        proof {
            assert forall|i: int| 0 <= i < 12 implies #[trigger] mc.ep.dest_of(self.ep.dest_of(i)) < 12 by {
                assert(self.ep.dest_of(i) < 12);
            }
        }
        let (eo, ep) = self.compose_edges(&mc);
        Self { eo, co: self.co, ep, cp: self.cp }
    }

    /// Apply a move to the corners only; the edges are kept.
    pub fn apply_move_corners(&self, m: Move) -> (r: Self)
        requires
            self.cp.in_range(),
        ensures
            corners_composed(r.co, r.cp, *self, m.spec_cube()),
            r.eo == self.eo,
            r.ep == self.ep,
    {
        let mc = m.cube();
        proof {
            assert forall|i: int| 0 <= i < 8 implies #[trigger] mc.cp.dest_of(self.cp.dest_of(i)) < 8 by {
                assert(self.cp.dest_of(i) < 8);
            }
        }
        let (co, cp) = self.compose_corners(&mc);
        Self { eo: self.eo, co, ep: self.ep, cp }
    }

    /// Apply a move: `self` followed by the move's cube.
    pub fn apply_move(&self, m: Move) -> (r: Self)
        requires
            self.ep.in_range(),
            self.cp.in_range(),
        ensures
            r.is_compose_of(*self, m.spec_cube()),
            r == after_move(*self, m),
            m.is_cube_of(m.spec_cube()),
            self.wf() ==> r.wf(),
            self.wf() && orientations_balanced(*self) ==> orientations_balanced(r),
            m.is_drud_move() && keeps_eslice(self.ep) ==> keeps_eslice(r.ep),
    {
        let mc = m.cube();
        proof {
            assert forall|i: int| 0 <= i < 12 implies #[trigger] mc.ep.dest_of(self.ep.dest_of(i)) < 12 by {
                assert(self.ep.dest_of(i) < 12);
            }
            assert forall|i: int| 0 <= i < 8 implies #[trigger] mc.cp.dest_of(self.cp.dest_of(i)) < 8 by {
                assert(self.cp.dest_of(i) < 8);
            }
        }
        let r = self.compose(&mc);
        proof {
            lemma_compose_unique(r, after_move(*self, m), *self, mc);
            if self.wf() {
                Self::law_compose_wf(*self, mc, r);
                Self::law_compose_orientations(*self, mc, r);
                m.lemma_cube_balanced(mc);
            }
            if m.is_drud_move() && keeps_eslice(self.ep) {
                m.lemma_drud_keeps_eslice();
                assert forall|i: int| 0 <= i < 12 implies (#[trigger] mc.ep.dest_of(i) >= 8 <==> i >= 8) by {
                    assert(mc.ep.dest_of(i) == mc.ep@[i]);
                }
                lemma_keeps_eslice_compose(r.ep, self.ep, mc.ep);
            }
        }
        r
    }

    /// The solved cube.
    pub open spec fn solved() -> Cube {
        Cube { eo: EO(0), co: CO(0), ep: Perm::<12>::identity_perm(), cp: Perm::<8>::identity_perm() }
    }

    /// The cube reached from the solved cube by the moves, in order; `None` for no moves.
    pub fn from_moves(moves: &[Move]) -> (r: Option<Cube>)
        ensures
            r is None <==> moves@.len() == 0,
            r matches Some(c) ==> c.wf() && c == after_moves(Cube::solved(), moves@),
            r matches Some(c) ==> orientations_balanced(c),
    {
        if moves.len() == 0 {
            return None;
        }
        let first = moves[0].cube();
        proof {
            let e = Cube::solved();
            Perm::<12>::lemma_identity_perm();
            Perm::<8>::lemma_identity_perm();
            Cube::lemma_identity_composes(first, e);
            lemma_compose_unique(first, after_move(e, moves@[0]), e, moves@[0].spec_cube());
            let sub = moves@.subrange(0, 1);
            assert(sub.drop_last() =~= Seq::<Move>::empty());
            assert(sub.last() == moves@[0]);
            assert(after_moves(e, sub.drop_last()) == e);
            assert(after_moves(e, sub) == first);
        }
        proof {
            moves@[0].lemma_cube_balanced(first);
        }
        let mut acc = first;
        let mut i: usize = 1;
        while i < moves.len()
            invariant
                1 <= i <= moves@.len(),
                acc.wf(),
                orientations_balanced(acc),
                acc == after_moves(Cube::solved(), moves@.subrange(0, i as int)),
            decreases moves@.len() - i,
        {
            let mc = moves[i].cube();
            proof {
                Cube::lemma_wf_composable(acc, mc);
            }
            let next = acc.compose(&mc);
            proof {
                Cube::law_compose_wf(acc, mc, next);
                Cube::law_compose_orientations(acc, mc, next);
                moves@[i as int].lemma_cube_balanced(mc);
                lemma_compose_unique(next, after_move(acc, moves@[i as int]), acc, mc);
                assert(moves@.subrange(0, i + 1).drop_last() =~= moves@.subrange(0, i as int));
            }
            acc = next;
            i = i + 1;
        }
        proof {
            assert(moves@.subrange(0, i as int) =~= moves@);
        }
        Some(acc)
    }

    /// Edges oriented, corners oriented, and the four E-slice edges in the E slice: the cube
    /// is in the subgroup of the second phase.
    pub fn is_drud(&self) -> (r: bool)
        ensures
            r == (self.eo.0 == 0 && self.co.0 == 0 && comb_rank(
                self.ep.unordered_image(eslice_mask()),
                16,
            ) == 0),
    {
        if !self.is_eofb() || !self.is_coud() {
            false
        } else {
            let fl = Edge::FL.coord() as u16;
            let fr = Edge::FR.coord() as u16;
            let bl = Edge::BL.coord() as u16;
            let br = Edge::BR.coord() as u16;
            proof {
                lemma_eslice_mask(fl, fr, bl, br);
            }
            let mask: u16 = (1u16 << fl) | (1u16 << fr) | (1u16 << bl) | (1u16 << br);
            let udslice_coord = self.ep.index_partial_unordered(mask);
            udslice_coord == 0
        }
    }
}


/// Moving flips along `p` and then along `q` moves them along `p` followed by `q`.
pub proof fn law_eo_swizzle_compose(x: u16, y: u16, z: u16, p: Perm<12>, q: Perm<12>, pq: Perm<12>)
    requires
        p.valid(),
        q.valid(),
        pq.is_compose_of(p, q),
        forall|j: int| 0 <= j < 16 ==> #[trigger] bit(y, j) == EO::moved_bit(x, p, j),
        forall|j: int| 0 <= j < 16 ==> #[trigger] bit(z, j) == EO::moved_bit(y, q, j),
    ensures
        forall|j: int| 0 <= j < 16 ==> #[trigger] bit(z, j) == EO::moved_bit(x, pq, j),
{
    assert forall|j: int| 0 <= j < 16 implies #[trigger] bit(z, j) == EO::moved_bit(x, pq, j) by {
        if EO::moved_bit(y, q, j) {
            let k = choose|k: int| 0 <= k < 12 && bit(y, k) && #[trigger] q.dest_of(k) == j;
            assert(bit(y, k) == EO::moved_bit(x, p, k));
            let i = choose|i: int| 0 <= i < 12 && bit(x, i) && #[trigger] p.dest_of(i) == k;
            assert(pq.dest_of(i) == j);
        }
        if EO::moved_bit(x, pq, j) {
            let i = choose|i: int| 0 <= i < 12 && bit(x, i) && #[trigger] pq.dest_of(i) == j;
            let k = p.dest_of(i);
            assert(k < 12);
            assert(EO::moved_bit(x, p, k));
            assert(bit(y, k));
            assert(q.dest_of(k) == j);
        }
    }
}

/// Moving the twists along `p` and then along `q` moves them along `p` followed by `q`.
pub proof fn law_co_swizzle_compose(x: u16, p: Perm<8>, q: Perm<8>, pq: Perm<8>)
    requires
        p.valid(),
        q.valid(),
        pq.is_compose_of(p, q),
    ensures
        co_moved(co_moved(x, p, 8), q, 8) == co_moved(x, pq, 8),
{
    let y = co_moved(x, p, 8);
    Perm::<8>::law_compose_valid(pq, p, q);
    assert forall|j: int| 0 <= j < 8 implies lane(co_moved(y, q, 8), j) == lane(co_moved(x, pq, 8), j) by {
        pq.lemma_has_source(j);
        let i = choose|i: int| 0 <= i < 8 && pq.dest_of(i) == j;
        let k = p.dest_of(i);
        assert(k < 8);
        lemma_co_moved_valid(x, p, 8, i);
        lemma_co_moved_valid(y, q, 8, k);
        lemma_co_moved_valid(x, pq, 8, i);
    }
    lemma_lane_ext(co_moved(y, q, 8), co_moved(x, pq, 8));
}

} // verus!