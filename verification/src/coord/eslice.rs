//! Location of the four E-slice edges.
use vstd::prelude::*;

use crate::bitset::{
    bit, comb_rank, lemma_binomial_pos, lemma_bit_or, lemma_bit_or_words, lemma_comb_rank_below, lemma_top_rank_pascal,
    lemma_comb_rank_frame, lemma_comb_rank_injective, lemma_comb_rank_top, lemma_low_mask,
    lemma_popcount_bound, lemma_popcount_low_mask, lemma_popcount_mono, lemma_popcount_or,
    lemma_popcount_zero, lemma_rank_zero_low, low_mask, popcount, test_bit, top_rank,
};
use crate::coord::{admissible, Coord};
use crate::cube::{eslice_mask, keeps_eslice, lemma_eslice_mask, Cube};
use crate::math::{
    binom, binomial, factorial, falling, lemma_binomial_pascal, lemma_factorial_mono,
    lemma_factorial_pos, lemma_falling_mono, lemma_falling_mono_n, pascal,
};
use crate::perm::{lemma_image_bits, Perm};
use crate::piece::Edge;
use crate::sym::{
    inverse_sym, is_edge_conjugate, lemma_conjugate_parts, lemma_conjugator_parts_inverse,
    lemma_edge_conjugate_formula, lemma_edge_conjugate_inverse, Sym,
};

verus! {

proof fn lemma_comb_rank_high_clear(x: u16, n: int)
    requires
        12 <= n <= 16,
        forall|j: int| 12 <= j < 16 ==> !#[trigger] bit(x, j),
    ensures
        comb_rank(x, n) == comb_rank(x, 12),
        popcount(x, n) == popcount(x, 12),
    decreases n,
{
    if n > 12 {
        lemma_comb_rank_high_clear(x, n - 1);
    }
}

proof fn lemma_falling_values(n: nat)
    requires
        4 <= n <= 11,
    ensures
        falling(n, 1) == n,
        falling(n, 2) == n * (n - 1),
        falling(n, 3) == n * (n - 1) * (n - 2),
        falling(n, 4) == n * (n - 1) * (n - 2) * (n - 3),
{
    assert(falling(n, 0) == 1);
    assert(falling(n, 1) == falling(n, 0) * n);
    assert(falling(n, 2) == falling(n, 1) * ((n - 1) as nat));
    assert(falling(n, 3) == falling(n, 2) * ((n - 2) as nat));
    assert(falling(n, 4) == falling(n, 3) * ((n - 3) as nat));
}

proof fn lemma_top_rank_12_4()
    ensures
        top_rank(12, 4) == 494,
{
    lemma_falling_values(8);
    lemma_falling_values(9);
    lemma_falling_values(10);
    lemma_falling_values(11);
    reveal_with_fuel(factorial, 5);
    assert(factorial(1) == 1);
    assert(factorial(2) == 2);
    assert(factorial(3) == 6);
    assert(factorial(4) == 24);
    assert(binomial(8, 1) == 8);
    assert(binomial(9, 2) == 36);
    assert(binomial(10, 3) == 120);
    assert(binomial(11, 4) == 330);
    assert(top_rank(8, 0) == 0);
    assert(top_rank(9, 1) == 8);
    assert(top_rank(10, 2) == 44);
    assert(top_rank(11, 3) == 164);
}

/// A set of four values below 12 ranks below `C(12, 4) = 495`.
proof fn lemma_four_of_twelve(x: u16)
    requires
        forall|j: int| 12 <= j < 16 ==> !#[trigger] bit(x, j),
        popcount(x, 16) == 4,
    ensures
        comb_rank(x, 16) < 495,
{
    lemma_comb_rank_high_clear(x, 16);
    lemma_comb_rank_top(x, 12);
    lemma_top_rank_12_4();
}

/// The E-slice coordinate of a well-formed cube is below 495.
pub proof fn lemma_eslice_bound(c: Cube)
    requires
        c.wf(),
    ensures
        comb_rank(c.ep.unordered_image(eslice_mask()), 16) < 495,
{
    let m = eslice_mask();
    lemma_eslice_mask(9, 8, 10, 11);
    lemma_image_bits(c.ep, m, 16);
    let img = c.ep.image_mask(m, 16);
    assert forall|j: int| 12 <= j < 16 implies !#[trigger] bit(img, j) by {
        if bit(img, j) {
            let i = choose|i: int| 0 <= i < 16 && bit(m, i) && #[trigger] c.ep.dest_of(i) == j;
            assert(i < 12);
        }
    }
    lemma_low_mask(4, 0);
    lemma_popcount_low_mask(4, 16);
    assert forall|j: int| 12 <= j < 16 implies !#[trigger] bit(low_mask(4), j) by {
        lemma_low_mask(4, j);
    }
    let u = c.ep.unordered_image(m);
    lemma_four_of_twelve(u);
}

/// A well-formed cube whose E-slice coordinate is 0 keeps the E-slice edges in the E slice.
pub proof fn lemma_rank_zero_keeps_eslice(c: Cube)
    requires
        c.wf(),
        comb_rank(c.ep.unordered_image(eslice_mask()), 16) == 0,
    ensures
        keeps_eslice(c.ep),
{
    let m = eslice_mask();
    lemma_eslice_mask(9, 8, 10, 11);
    lemma_image_bits(c.ep, m, 16);
    let img = c.ep.image_mask(m, 16);
    assert forall|j: int| 12 <= j < 16 implies !#[trigger] bit(img, j) by {
        if bit(img, j) {
            let i = choose|i: int| 0 <= i < 16 && bit(m, i) && #[trigger] c.ep.dest_of(i) == j;
            assert(i < 12);
        }
    }
    lemma_low_mask(4, 0);
    lemma_popcount_low_mask(4, 16);
    assert forall|j: int| 12 <= j < 16 implies !#[trigger] bit(low_mask(4), j) by {
        lemma_low_mask(4, j);
    }
    let u = c.ep.unordered_image(m);
    assert(popcount(u, 16) == 4);
    lemma_rank_zero_low(u, 4);
    assert(bit(low_mask(4), 0));
    assert(!bit(m, 0));
    assert(img == m);
    assert forall|i: int| 0 <= i < 12 implies (#[trigger] c.ep.dest_of(i) >= 8 <==> i >= 8) by {
        let d = c.ep.dest_of(i);
        assert(d < 12);
        if i >= 8 {
            assert(0 <= i < 16 && bit(m, i) && c.ep.dest_of(i) == d);
            assert(bit(img, d));
        } else if d >= 8 {
            assert(bit(img, d));
            let k = choose|k: int| 0 <= k < 16 && bit(m, k) && #[trigger] c.ep.dest_of(k) == d;
            assert(c.ep.dest_of(k) != c.ep.dest_of(i));
        }
    }
}

/// The slots that the four E-slice edges of `c` occupy.
pub open spec fn eslice_image(c: Cube) -> u16 {
    c.ep.image_mask(eslice_mask(), 16)
}

/// The slots of the E-slice edges are the destinations of edges 8 to 11, four of them.
proof fn lemma_eslice_image(c: Cube)
    requires
        c.ep.valid(),
    ensures
        forall|d: int|
            0 <= d < 16 ==> (#[trigger] bit(eslice_image(c), d) <==> exists|i: int|
                8 <= i < 12 && #[trigger] c.ep.dest_of(i) == d),
        popcount(c.ep.unordered_image(eslice_mask()), 16) == 4,
{
    let m = eslice_mask();
    lemma_eslice_mask(9, 8, 10, 11);
    lemma_image_bits(c.ep, m, 16);
    let img = eslice_image(c);
    assert forall|d: int|
        0 <= d < 16 implies (#[trigger] bit(img, d) <==> exists|i: int|
            8 <= i < 12 && #[trigger] c.ep.dest_of(i) == d) by {
        if bit(img, d) {
            let i = choose|i: int| 0 <= i < 16 && bit(m, i) && #[trigger] c.ep.dest_of(i) == d;
            assert(8 <= i < 12 && c.ep.dest_of(i) == d);
        }
        if exists|i: int| 8 <= i < 12 && #[trigger] c.ep.dest_of(i) == d {
            let i = choose|i: int| 8 <= i < 12 && #[trigger] c.ep.dest_of(i) == d;
            assert(0 <= i < 16 && bit(m, i) && c.ep.dest_of(i) == d);
        }
    }
    lemma_popcount_low_mask(4, 16);
}

/// Cubes with the same E-slice coordinate have their E-slice edges in the same slots.
proof fn lemma_eslice_determined(a: Cube, b: Cube)
    requires
        a.ep.valid(),
        b.ep.valid(),
        CoordESlice::spec_index(a) == CoordESlice::spec_index(b),
    ensures
        eslice_image(a) == eslice_image(b),
{
    let m = eslice_mask();
    lemma_eslice_image(a);
    lemma_eslice_image(b);
    let ua = a.ep.unordered_image(m);
    let ub = b.ep.unordered_image(m);
    lemma_comb_rank_injective(ua, ub, 16);
    crate::bitset::lemma_bit_ext(ua, ub);
}

/// Cubes with their E-slice edges in the same slots have the same E-slice coordinate.
proof fn lemma_eslice_same(a: Cube, b: Cube)
    requires
        eslice_image(a) == eslice_image(b),
    ensures
        CoordESlice::spec_index(a) == CoordESlice::spec_index(b),
{
}

/// The E-slice coordinate reads a coset: cubes with the same coordinate, each followed by
/// the same cube `m`, have the same coordinate again.
pub proof fn law_compose_respects_eslice(a: Cube, b: Cube, m: Cube, ra: Cube, rb: Cube)
    requires
        a.wf(),
        b.wf(),
        m.wf(),
        CoordESlice::spec_index(a) == CoordESlice::spec_index(b),
        ra.is_compose_of(a, m),
        rb.is_compose_of(b, m),
    ensures
        CoordESlice::spec_index(ra) == CoordESlice::spec_index(rb),
{
    Cube::law_compose_wf(a, m, ra);
    Cube::law_compose_wf(b, m, rb);
    lemma_eslice_determined(a, b);
    lemma_eslice_image(a);
    lemma_eslice_image(b);
    lemma_eslice_image(ra);
    lemma_eslice_image(rb);
    assert forall|d: int| 0 <= d < 16 implies bit(eslice_image(ra), d) == bit(eslice_image(rb), d) by {
        if bit(eslice_image(ra), d) {
            let i = choose|i: int| 8 <= i < 12 && #[trigger] ra.ep.dest_of(i) == d;
            let v = a.ep.dest_of(i);
            assert(v < 12);
            assert(bit(eslice_image(a), v));
            let j = choose|j: int| 8 <= j < 12 && #[trigger] b.ep.dest_of(j) == v;
            assert(rb.ep.dest_of(j) == d);
        }
        if bit(eslice_image(rb), d) {
            let i = choose|i: int| 8 <= i < 12 && #[trigger] rb.ep.dest_of(i) == d;
            let v = b.ep.dest_of(i);
            assert(v < 12);
            assert(bit(eslice_image(b), v));
            let j = choose|j: int| 8 <= j < 12 && #[trigger] a.ep.dest_of(j) == v;
            assert(ra.ep.dest_of(j) == d);
        }
    }
    crate::bitset::lemma_bit_ext(eslice_image(ra), eslice_image(rb));
    lemma_eslice_same(ra, rb);
}

/// `C(n, k)` for `k <= 4` and `n <= 11`, computed within `usize`.
fn small_binom(n: usize, k: usize) -> (r: usize)
    requires
        n <= 11,
        k <= 4,
    ensures
        r == binomial(n as nat, k as nat),
{
    proof {
        if k <= n {
            lemma_falling_mono_n(n as nat, 11, k as nat);
            lemma_falling_mono(11, k as nat, 4);
            lemma_falling_values(11);
            lemma_factorial_mono(k as nat, 4);
            crate::coord::cp::lemma_factorial_8();
        }
    }
    binom(n, k)
}

/// The `k`-element subset of `0..n`, below the 4 elements of `0..12`, whose rank is `c`.
fn unrank_four(c: usize) -> (x: u16)
    requires
        c < 495,
    ensures
        comb_rank(x, 16) == c,
        popcount(x, 16) == 4,
        forall|j: int| 12 <= j < 16 ==> !#[trigger] bit(x, j),
{
    let mut x: u16 = 0;
    let mut n: usize = 12;
    let mut k: usize = 4;
    let mut rem: usize = c;
    proof {
        lemma_top_rank_12_4();
        lemma_top_rank_pascal(12, 4);
        lemma_binomial_pascal(12, 4);
        assert forall|j: int| 0 <= j < 16 implies !#[trigger] bit(x, j) by {
            crate::bitset::lemma_bit_zero(j);
        }
        assert forall|y: u16|
            (forall|j: int| 12 <= j < 16 ==> !#[trigger] bit(y, j)) && popcount(y, 12) == 4
                && #[trigger] comb_rank(y, 12) == c implies comb_rank(x | y, 16) == c && popcount(
            x | y,
            16,
        ) == 4 by {
            assert(x | y == y) by (bit_vector)
                requires
                    x == 0u16,
            ;
            lemma_comb_rank_high_clear(y, 16);
        }
    }
    while n > 0
        invariant
            n <= 12,
            k <= 4,
            rem < binomial(n as nat, k as nat),
            forall|j: int| 0 <= j < n ==> !#[trigger] bit(x, j),
            forall|j: int| 12 <= j < 16 ==> !#[trigger] bit(x, j),
            forall|y: u16|
                (forall|j: int| n <= j < 16 ==> !#[trigger] bit(y, j)) && popcount(y, n as int) == k
                    && #[trigger] comb_rank(y, n as int) == rem ==> comb_rank(x | y, 16) == c
                    && popcount(x | y, 16) == 4,
        decreases n,
    {
        let n1 = n - 1;
        let b = small_binom(n1, k);
        proof {
            lemma_binomial_pascal(n as nat, k as nat);
            lemma_binomial_pascal(n1 as nat, k as nat);
            if k > 0 {
                lemma_binomial_pascal(n1 as nat, (k - 1) as nat);
            }
            assert(falling(n1 as nat, 0) == 1);
            assert(factorial(0) == 1);
        }
        if rem >= b {
            let ghost x0 = x;
            let bb: u16 = 1u16 << (n1 as u16);
            proof {
                assert(k > 0);
                assert(bb == (1u16 << ((n1 as int) as u16)) as u16);
            }
            x = x | bb;
            proof {
                assert forall|j: int| 0 <= j < 16 implies #[trigger] bit(x, j) == (bit(x0, j) || j
                    == n1) by {
                    lemma_bit_or(x0, 1, n1 as int, j);
                }
                assert forall|y: u16|
                    (forall|j: int| n1 <= j < 16 ==> !#[trigger] bit(y, j)) && popcount(y, n1 as int)
                        == k - 1 && #[trigger] comb_rank(y, n1 as int) == rem - b implies comb_rank(
                    x | y,
                    16,
                ) == c && popcount(x | y, 16) == 4 by {
                    let y2 = y | bb;
                    assert forall|j: int| 0 <= j < 16 implies #[trigger] bit(y2, j) == (bit(y, j) || j
                        == n1) by {
                        lemma_bit_or(y, 1, n1 as int, j);
                    }
                    lemma_comb_rank_frame(y, y2, n1 as int);
                    assert(forall|j: int| n <= j < 16 ==> !#[trigger] bit(y2, j));
                    assert(comb_rank(y2, n as int) == rem);
                    assert((x0 | bb) | y == x0 | (y | bb)) by (bit_vector);
                }
            }
            rem = rem - b;
            k = k - 1;
        } else {
            proof {
                assert forall|y: u16|
                    (forall|j: int| n1 <= j < 16 ==> !#[trigger] bit(y, j)) && popcount(y, n1 as int)
                        == k && #[trigger] comb_rank(y, n1 as int) == rem implies comb_rank(x | y, 16)
                    == c && popcount(x | y, 16) == 4 by {
                    assert(!bit(y, n1 as int));
                    assert(comb_rank(y, n as int) == rem);
                }
                if k == n {
                    assert(falling(n1 as nat, k as nat) == 0);
                }
            }
        }
        n = n1;
    }
    proof {
        assert(falling(0, k as nat) == 0 || k == 0);
        if k > 0 {
            assert(falling(0, k as nat) == 0);
            lemma_factorial_pos(k as nat);
            let f = factorial(k as nat);
            assert(0nat / f == 0) by (nonlinear_arith)
                requires
                    f >= 1,
            ;
            assert(binomial(0, k as nat) == 0);
        }
        let y: u16 = 0;
        assert forall|j: int| 0 <= j < 16 implies !#[trigger] bit(y, j) by {
            crate::bitset::lemma_bit_zero(j);
        }
        assert(comb_rank(y, 0) == 0 && popcount(y, 0) == 0);
        assert(x | y == x) by (bit_vector)
            requires
                y == 0u16,
        ;
    }
    x
}

/// Value `v` is written in one of the first `o` entries of `s`, or in entries `8..e`.
spec fn written(s: Seq<usize>, o: int, e: int, v: int) -> bool {
    exists|i: int| ((0 <= i < o) || (8 <= i < e)) && #[trigger] s[i] == v
}

/// Between `a` and `b` at most `b - a` more bits are set.
proof fn lemma_popcount_gap(x: u16, a: int, b: int)
    requires
        0 <= a <= b,
    ensures
        popcount(x, b) <= popcount(x, a) + (b - a),
    decreases b - a,
{
    if a < b {
        lemma_popcount_gap(x, a, b - 1);
    }
}

/// A cube whose four E-slice edges occupy the slots of `u` (a four-element subset of
/// `0..12`), the others keeping their order.
fn cube_with_eslice_image(u: u16) -> (r: Cube)
    requires
        popcount(u, 12) == 4,
        forall|j: int| 12 <= j < 16 ==> !#[trigger] bit(u, j),
    ensures
        r.wf(),
        eslice_image(r) == u,
{
    let mut dests: [usize; 12] = [0; 12];
    let mut e: usize = 8;
    let mut o: usize = 0;
    let mut d: usize = 0;
    proof {
        lemma_popcount_mono(u, 0, 12);
    }
    while d < 12
        invariant
            d <= 12,
            popcount(u, 12) == 4,
            e == 8 + popcount(u, d as int),
            o + popcount(u, d as int) == d,
            forall|i: int| 0 <= i < o ==> #[trigger] dests@[i] < d && !bit(u, dests@[i] as int),
            forall|i: int| 8 <= i < e ==> #[trigger] dests@[i] < d && bit(u, dests@[i] as int),
            forall|i: int, j: int|
                ((0 <= i < o) || (8 <= i < e)) && ((0 <= j < o) || (8 <= j < e)) && i != j
                    ==> #[trigger] dests@[i] != #[trigger] dests@[j],
            forall|v: int| 0 <= v < d ==> #[trigger] written(dests@, o as int, e as int, v),
        decreases 12 - d,
    {
        proof {
            lemma_popcount_mono(u, d + 1, 12);
            lemma_popcount_gap(u, d + 1, 12);
        }
        let ghost old_dests = dests@;
        if test_bit(u, d as u16) {
            dests[e] = d;
            proof {
                assert forall|v: int| 0 <= v < d + 1 implies #[trigger] written(dests@, o as int, e + 1, v) by {
                    if v < d {
                        assert(written(old_dests, o as int, e as int, v));
                        let i = choose|i: int| ((0 <= i < o) || (8 <= i < e)) && #[trigger] old_dests[i] == v;
                        assert(dests@[i] == v);
                    } else {
                        assert(dests@[e as int] == v);
                    }
                }
            }
            e = e + 1;
        } else {
            dests[o] = d;
            proof {
                assert forall|v: int| 0 <= v < d + 1 implies #[trigger] written(dests@, o + 1, e as int, v) by {
                    if v < d {
                        assert(written(old_dests, o as int, e as int, v));
                        let i = choose|i: int| ((0 <= i < o) || (8 <= i < e)) && #[trigger] old_dests[i] == v;
                        assert(dests@[i] == v);
                    } else {
                        assert(dests@[o as int] == v);
                    }
                }
            }
            o = o + 1;
        }
        d = d + 1;
    }
    proof {
        assert forall|i: int| 0 <= i < 12 implies #[trigger] dests@[i] < 12 by {}
        assert forall|i: int, j: int|
            0 <= i < 12 && 0 <= j < 12 && i != j implies #[trigger] dests@[i] != #[trigger] dests@[j] by {}
    }
    let ep = Perm::<12>::from_dests(&dests);
    let sd = Cube::default();
    proof {
        Cube::lemma_solved_wf(sd);
    }
    let r = Cube { eo: sd.eo, co: sd.co, ep, cp: sd.cp };
    proof {
        lemma_eslice_image(r);
        assert forall|v: int| 0 <= v < 16 implies bit(eslice_image(r), v) == bit(u, v) by {
            if bit(eslice_image(r), v) {
                let i = choose|i: int| 8 <= i < 12 && #[trigger] r.ep.dest_of(i) == v;
                assert(r.ep.dest_of(i) == dests@[i]);
            }
            if bit(u, v) {
                assert(v < 12);
                assert(written(dests@, 8, 12, v));
                let i = choose|i: int| ((0 <= i < 8) || (8 <= i < 12)) && #[trigger] dests@[i] == v;
                assert(r.ep.dest_of(i) == dests@[i]);
                assert(8 <= i < 12);
            }
        }
        crate::bitset::lemma_bit_ext(eslice_image(r), u);
    }
    r
}

/// Coordinate based on the locations of the E-slice pieces [0..C(12, 4)).
pub struct CoordESlice;

impl Coord for CoordESlice {
    open spec fn needs_dr() -> bool {
        false
    }

    open spec fn spec_n_values() -> nat {
        495
    }

    open spec fn spec_index(c: Cube) -> nat {
        comb_rank(c.ep.unordered_image(eslice_mask()), 16)
    }

    open spec fn spec_conj(c: Cube, s: Sym) -> Cube {
        s.spec_conj_edges(c)
    }

    open spec fn spec_syms() -> Seq<Sym> {
        Seq::empty()
    }

    open spec fn reducible() -> bool {
        false
    }

    open spec fn complete(c: Cube) -> bool {
        true
    }

    open spec fn conj_defined(c: Cube, s: Sym) -> bool {
        is_edge_conjugate(Self::spec_conj(c, s), c, s.spec_conjugator())
    }

    proof fn lemma_conj_back(rep: Cube, s: Sym, c: Cube, r: Cube) {
        let sc = s.spec_conjugator();
        let tc = inverse_sym(s).spec_conjugator();
        lemma_conjugator_parts_inverse(s, sc, tc);
        s.lemma_dests_inverse();
        s.lemma_edge_dests_keep_eslice();
        inverse_sym(s).lemma_edge_dests_keep_eslice();
        let a = Self::spec_conj(rep, s);
        lemma_edge_conjugate_formula(a, rep, sc, tc.ep);
        lemma_conjugate_parts(r, c, tc);
        lemma_edge_conjugate_formula(r, c, tc, sc.ep);
        crate::sym::lemma_chain_valid(a.ep, sc.ep, rep.ep, tc.ep);
        crate::sym::lemma_chain_valid(r.ep, tc.ep, c.ep, sc.ep);
        lemma_eslice_determined(a, c);
        lemma_eslice_image(a);
        lemma_eslice_image(c);
        lemma_eslice_image(r);
        lemma_eslice_image(rep);
        assert forall|d: int| 0 <= d < 16 implies bit(eslice_image(r), d) == bit(eslice_image(rep), d) by {
            if bit(eslice_image(r), d) {
                let i = choose|i: int| 8 <= i < 12 && #[trigger] r.ep.dest_of(i) == d;
                let j = tc.ep.dest_of(i);
                assert(tc.ep@[i] == j);
                assert(8 <= j < 12);
                let v = c.ep.dest_of(j);
                assert(v < 12);
                assert(bit(eslice_image(c), v));
                let j2 = choose|j2: int| 8 <= j2 < 12 && #[trigger] a.ep.dest_of(j2) == v;
                let i2 = sc.ep.dest_of(j2);
                assert(sc.ep@[j2] == i2);
                assert(8 <= i2 < 12);
                assert(rep.ep.dest_of(i2) < 12);
                assert(sc.ep.dest_of(tc.ep.dest_of(rep.ep.dest_of(i2))) == rep.ep.dest_of(i2));
                assert(rep.ep.dest_of(i2) == d);
            }
            if bit(eslice_image(rep), d) {
                let i = choose|i: int| 8 <= i < 12 && #[trigger] rep.ep.dest_of(i) == d;
                let j = tc.ep.dest_of(i);
                assert(tc.ep@[i] == j);
                assert(8 <= j < 12);
                assert(sc.ep.dest_of(j) == i);
                let v = a.ep.dest_of(j);
                assert(v < 12);
                assert(bit(eslice_image(a), v));
                let j2 = choose|j2: int| 8 <= j2 < 12 && #[trigger] c.ep.dest_of(j2) == v;
                let i2 = sc.ep.dest_of(j2);
                assert(sc.ep@[j2] == i2);
                assert(8 <= i2 < 12);
                assert(tc.ep.dest_of(i2) == j2);
                assert(d < 12);
                assert(sc.ep.dest_of(tc.ep.dest_of(d)) == d);
                assert(r.ep.dest_of(i2) == d);
            }
        }
        crate::bitset::lemma_bit_ext(eslice_image(r), eslice_image(rep));
        lemma_eslice_same(r, rep);
    }

    proof fn law_syms_respect_index(a: Cube, b: Cube, s: Sym) {
        let sc = s.spec_conjugator();
        let ra = Self::spec_conj(a, s);
        let rb = Self::spec_conj(b, s);
        s.lemma_edge_dests_keep_eslice();
        lemma_edge_conjugate_inverse(ra, a, sc);
        let tp = choose|p: Perm<12>| p.is_inverse_of(sc.ep);
        lemma_edge_conjugate_formula(ra, a, sc, tp);
        lemma_edge_conjugate_formula(rb, b, sc, tp);
        Perm::<12>::lemma_inverse_valid(tp, sc.ep);
        crate::sym::lemma_chain_valid(ra.ep, sc.ep, a.ep, tp);
        crate::sym::lemma_chain_valid(rb.ep, sc.ep, b.ep, tp);
        lemma_eslice_determined(a, b);
        lemma_eslice_image(a);
        lemma_eslice_image(b);
        lemma_eslice_image(ra);
        lemma_eslice_image(rb);
        assert forall|d: int| 0 <= d < 16 implies bit(eslice_image(ra), d) == bit(eslice_image(rb), d) by {
            if bit(eslice_image(ra), d) {
                let i = choose|i: int| 8 <= i < 12 && #[trigger] ra.ep.dest_of(i) == d;
                let j = sc.ep.dest_of(i);
                assert(sc.ep@[i] == j);
                assert(8 <= j < 12);
                let v = a.ep.dest_of(j);
                assert(v < 12);
                assert(bit(eslice_image(a), v));
                let j2 = choose|j2: int| 8 <= j2 < 12 && #[trigger] b.ep.dest_of(j2) == v;
                sc.ep.lemma_has_source(j2);
                let i2 = choose|i2: int| 0 <= i2 < 12 && sc.ep.dest_of(i2) == j2;
                assert(sc.ep@[i2] == j2);
                assert(8 <= i2 < 12);
                assert(rb.ep.dest_of(i2) == d);
            }
            if bit(eslice_image(rb), d) {
                let i = choose|i: int| 8 <= i < 12 && #[trigger] rb.ep.dest_of(i) == d;
                let j = sc.ep.dest_of(i);
                assert(sc.ep@[i] == j);
                assert(8 <= j < 12);
                let v = b.ep.dest_of(j);
                assert(v < 12);
                assert(bit(eslice_image(b), v));
                let j2 = choose|j2: int| 8 <= j2 < 12 && #[trigger] a.ep.dest_of(j2) == v;
                sc.ep.lemma_has_source(j2);
                let i2 = choose|i2: int| 0 <= i2 < 12 && sc.ep.dest_of(i2) == j2;
                assert(sc.ep@[i2] == j2);
                assert(8 <= i2 < 12);
                assert(ra.ep.dest_of(i2) == d);
            }
        }
        crate::bitset::lemma_bit_ext(eslice_image(ra), eslice_image(rb));
        lemma_eslice_same(ra, rb);
    }

    proof fn lemma_n_values() {
    }

    proof fn lemma_syms_closed() {
    }

    proof fn lemma_orbits_meet(p: Cube, t: Sym, k: Cube, s: Sym, u: Sym) {
    }

    proof fn lemma_identity_first() {
    }

    proof fn lemma_conj_identity(c: Cube, s: Sym) {
        s.lemma_conj_identity(c);
    }

    fn name() -> (r: &'static str)
        ensures
            r@ == "CoordESlice"@,
    {
        "CoordESlice"
    }

    fn n_values() -> (r: usize) {
        495
    }

    fn index(c: &Cube) -> (r: usize) {
        let fl = Edge::FL.coord() as u16;
        let fr = Edge::FR.coord() as u16;
        let bl = Edge::BL.coord() as u16;
        let br = Edge::BR.coord() as u16;
        proof {
            lemma_eslice_mask(fl, fr, bl, br);
            lemma_eslice_bound(*c);
        }
        let mask: u16 = (1u16 << fl) | (1u16 << fr) | (1u16 << bl) | (1u16 << br);
        c.ep.index_partial_unordered(mask)
    }

    fn rep(c: usize) -> (r: Cube)
        ensures
            Self::spec_index(r) == c,
    {
        let t = unrank_four(c);
        let m: u16 = 0xf00;
        let z: u16 = 0xf;
        proof {
            lemma_eslice_mask(9, 8, 10, 11);
            lemma_popcount_low_mask(4, 16);
            assert forall|j: int| 0 <= j < 16 implies #[trigger] bit(z, j) == bit(low_mask(4), j) by {
                lemma_low_mask(4, j);
                let sj = j as u16;
                assert(((15u16 >> sj) & 1u16 == 1u16) == (sj < 4)) by (bit_vector)
                    requires
                        sj < 16,
                ;
            }
            crate::bitset::lemma_bit_ext(z, low_mask(4));
            assert(m == eslice_mask());
        }
        let u: u16 = if t == z {
            m
        } else if t == m {
            z
        } else {
            t
        };
        proof {
            assert forall|j: int| 12 <= j < 16 implies !#[trigger] bit(u, j) by {
                lemma_low_mask(4, j);
            }
            lemma_comb_rank_high_clear(u, 16);
        }
        let r = cube_with_eslice_image(u);
        proof {
            assert(r.ep.image_mask(eslice_mask(), 16) == u);
        }
        r
    }

    fn conj(c: &Cube, s: Sym) -> (r: Cube) {
        s.conj_edges(c)
    }

    fn syms() -> (r: Vec<Sym>) {
        let r: Vec<Sym> = Vec::new();
        proof {
            assert(r@ =~= Self::spec_syms());
        }
        r
    }
}

} // verus!
