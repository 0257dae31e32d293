//! Facts about single bits of a `u16` used as a set of small numbers.
use vstd::prelude::*;

use crate::math::{
    binomial, count_below, factorial, falling, lemma_binomial_pascal, lemma_count_below_perm,
    lemma_factorial_pos, lemma_falling_mono_n, pascal,
};

verus! {

/// Bit `k` of `x`.
pub open spec fn bit(x: u16, k: int) -> bool {
    (x >> (k as u16)) & 1u16 == 1u16
}

pub proof fn lemma_bit_or(x: u16, b: u16, j0: int, j: int)
    requires
        b <= 1,
        0 <= j0 < 16,
        0 <= j < 16,
    ensures
        bit(x | ((b << (j0 as u16)) as u16), j) == (bit(x, j) || (j == j0 && b == 1)),
{
    let s0 = j0 as u16;
    let s = j as u16;
    assert(((x | ((b << s0) as u16)) >> s) & 1u16 == 1u16 <==> ((x >> s) & 1u16 == 1u16 || (s
        == s0 && b == 1))) by (bit_vector)
        requires
            b <= 1,
            s0 < 16,
            s < 16,
    ;
}

pub proof fn lemma_bit_xor(x: u16, y: u16, j: int)
    requires
        0 <= j < 16,
    ensures
        bit(x ^ y, j) == (bit(x, j) != bit(y, j)),
{
    let s = j as u16;
    assert(((x ^ y) >> s) & 1u16 == 1u16 <==> (((x >> s) & 1u16 == 1u16) != ((y >> s) & 1u16
        == 1u16))) by (bit_vector)
        requires
            s < 16,
    ;
}

pub proof fn lemma_bit_zero(j: int)
    requires
        0 <= j < 16,
    ensures
        !bit(0, j),
{
    let s = j as u16;
    assert(!((0u16 >> s) & 1u16 == 1u16)) by (bit_vector);
}

/// Two words with the same sixteen bits are equal.
pub proof fn lemma_bit_ext(x: u16, y: u16)
    requires
        forall|j: int| 0 <= j < 16 ==> bit(x, j) == bit(y, j),
    ensures
        x == y,
{
    assert(bit(x, 0) == bit(y, 0));
    assert(bit(x, 1) == bit(y, 1));
    assert(bit(x, 2) == bit(y, 2));
    assert(bit(x, 3) == bit(y, 3));
    assert(bit(x, 4) == bit(y, 4));
    assert(bit(x, 5) == bit(y, 5));
    assert(bit(x, 6) == bit(y, 6));
    assert(bit(x, 7) == bit(y, 7));
    assert(bit(x, 8) == bit(y, 8));
    assert(bit(x, 9) == bit(y, 9));
    assert(bit(x, 10) == bit(y, 10));
    assert(bit(x, 11) == bit(y, 11));
    assert(bit(x, 12) == bit(y, 12));
    assert(bit(x, 13) == bit(y, 13));
    assert(bit(x, 14) == bit(y, 14));
    assert(bit(x, 15) == bit(y, 15));
    assert(x == y) by (bit_vector)
        requires
            ((x >> 0u16) & 1u16 == 1u16) == ((y >> 0u16) & 1u16 == 1u16),
            ((x >> 1u16) & 1u16 == 1u16) == ((y >> 1u16) & 1u16 == 1u16),
            ((x >> 2u16) & 1u16 == 1u16) == ((y >> 2u16) & 1u16 == 1u16),
            ((x >> 3u16) & 1u16 == 1u16) == ((y >> 3u16) & 1u16 == 1u16),
            ((x >> 4u16) & 1u16 == 1u16) == ((y >> 4u16) & 1u16 == 1u16),
            ((x >> 5u16) & 1u16 == 1u16) == ((y >> 5u16) & 1u16 == 1u16),
            ((x >> 6u16) & 1u16 == 1u16) == ((y >> 6u16) & 1u16 == 1u16),
            ((x >> 7u16) & 1u16 == 1u16) == ((y >> 7u16) & 1u16 == 1u16),
            ((x >> 8u16) & 1u16 == 1u16) == ((y >> 8u16) & 1u16 == 1u16),
            ((x >> 9u16) & 1u16 == 1u16) == ((y >> 9u16) & 1u16 == 1u16),
            ((x >> 10u16) & 1u16 == 1u16) == ((y >> 10u16) & 1u16 == 1u16),
            ((x >> 11u16) & 1u16 == 1u16) == ((y >> 11u16) & 1u16 == 1u16),
            ((x >> 12u16) & 1u16 == 1u16) == ((y >> 12u16) & 1u16 == 1u16),
            ((x >> 13u16) & 1u16 == 1u16) == ((y >> 13u16) & 1u16 == 1u16),
            ((x >> 14u16) & 1u16 == 1u16) == ((y >> 14u16) & 1u16 == 1u16),
            ((x >> 15u16) & 1u16 == 1u16) == ((y >> 15u16) & 1u16 == 1u16),
    ;
}

/// Whether bit `i` of `x` is set.
pub fn test_bit(x: u16, i: u16) -> (r: bool)
    requires
        i < 16,
    ensures
        r == bit(x, i as int),
{
    let b = (x >> i) & 1;
    assert((b == 1) == ((x >> i) & 1u16 == 1u16)) by (bit_vector)
        requires
            b == (x >> i) & 1,
    ;
    b == 1
}

/// The members of the set `m`.
pub open spec fn members(m: u16) -> Set<int> {
    Set::new(|d: int| 0 <= d < 16 && bit(m, d))
}

/// Number of set bits of `x` below position `n`.
pub open spec fn popcount(x: u16, n: int) -> nat
    decreases n,
{
    if n <= 0 {
        0
    } else {
        popcount(x, n - 1) + if bit(x, n - 1) {
            1nat
        } else {
            0nat
        }
    }
}

/// The set `{0, ..., k - 1}`.
pub open spec fn low_mask(k: nat) -> u16 {
    (((1u16 << (k as u16)) as u16) - 1) as u16
}

/// Rank of the set `x` in the combinatorial number system, counting only the elements below
/// `n`: the `t`-th smallest element `j` (from `t = 1`) contributes `C(j, t)`.
pub open spec fn comb_rank(x: u16, n: int) -> nat
    decreases n,
{
    if n <= 0 {
        0
    } else {
        comb_rank(x, n - 1) + if bit(x, n - 1) {
            binomial((n - 1) as nat, popcount(x, n - 1) + 1)
        } else {
            0nat
        }
    }
}

pub proof fn lemma_popcount_mono(x: u16, a: int, b: int)
    requires
        a <= b,
    ensures
        popcount(x, a) <= popcount(x, b),
    decreases b - a,
{
    if a < b {
        lemma_popcount_mono(x, a, b - 1);
    }
}

pub proof fn lemma_popcount_bound(x: u16, n: int)
    requires
        0 <= n,
    ensures
        popcount(x, n) <= n,
    decreases n,
{
    if n > 0 {
        lemma_popcount_bound(x, n - 1);
    }
}

/// Adding element `d` adds one to the count (below `n`) exactly when it was missing.
pub proof fn lemma_popcount_or(x: u16, d: int, n: int)
    requires
        0 <= d < 16,
        n <= 16,
    ensures
        popcount(x | ((1u16 << (d as u16)) as u16), n) == popcount(x, n) + if d < n && !bit(x, d) {
            1nat
        } else {
            0nat
        },
    decreases n,
{
    if n > 0 {
        lemma_popcount_or(x, d, n - 1);
        lemma_bit_or(x, 1, d, n - 1);
    }
}

/// The bits of `{0, ..., k - 1}`.
pub proof fn lemma_low_mask(k: nat, j: int)
    requires
        k < 16,
        0 <= j < 16,
    ensures
        bit(low_mask(k), j) == (j < k),
        (1u16 << (k as u16)) >= 1,
{
    let kk = k as u16;
    let s = j as u16;
    assert(((((((1u16 << kk) as u16) - 1) as u16) >> s) & 1u16 == 1u16) == (s < kk) && (1u16
        << kk) >= 1) by (bit_vector)
        requires
            kk < 16,
            s < 16,
    ;
}

pub proof fn lemma_popcount_zero(n: int)
    requires
        n <= 16,
    ensures
        popcount(0, n) == 0,
    decreases n,
{
    if n > 0 {
        lemma_bit_zero(n - 1);
        lemma_popcount_zero(n - 1);
    }
}

pub proof fn lemma_popcount_low_mask(k: nat, n: int)
    requires
        k < 16,
        0 <= n <= 16,
    ensures
        popcount(low_mask(k), n) == if n < k {
            n as nat
        } else {
            k
        },
    decreases n,
{
    if n > 0 {
        lemma_popcount_low_mask(k, n - 1);
        lemma_low_mask(k, n - 1);
    }
}


/// `popcount` counts the positions of the set bits.
pub proof fn lemma_popcount_count(x: u16, n: int)
    ensures
        popcount(x, n) == count_below(|i: int| bit(x, i), n),
    decreases n,
{
    if n > 0 {
        lemma_popcount_count(x, n - 1);
    }
}

/// Moving the first `n` bits along a permutation of `0..n` keeps their number.
pub proof fn lemma_popcount_perm(x: u16, y: u16, p: spec_fn(int) -> int, n: int)
    requires
        0 <= n,
        forall|i: int| 0 <= i < n ==> 0 <= #[trigger] p(i) < n,
        forall|i: int, j: int| 0 <= i < n && 0 <= j < n && i != j ==> #[trigger] p(i) != #[trigger] p(j),
        forall|i: int| 0 <= i < n ==> bit(y, #[trigger] p(i)) == bit(x, i),
    ensures
        popcount(y, n) == popcount(x, n),
{
    lemma_popcount_count(x, n);
    lemma_popcount_count(y, n);
    lemma_count_below_perm(|i: int| bit(x, i), |i: int| bit(y, i), p, n);
}


/// A bit of `x | y` is set when it is set in `x` or in `y`.
pub proof fn lemma_bit_or_words(x: u16, y: u16, j: int)
    requires
        0 <= j < 16,
    ensures
        bit(x | y, j) == (bit(x, j) || bit(y, j)),
{
    let s = j as u16;
    assert(((x | y) >> s) & 1u16 == 1u16 <==> ((x >> s) & 1u16 == 1u16 || (y >> s) & 1u16 == 1u16))
        by (bit_vector)
        requires
            s < 16,
    ;
}

/// Words with the same bits below `n` have the same rank and size below `n`.
pub proof fn lemma_comb_rank_frame(x: u16, y: u16, n: int)
    requires
        n <= 16,
        forall|j: int| 0 <= j < n ==> #[trigger] bit(x, j) == bit(y, j),
    ensures
        comb_rank(x, n) == comb_rank(y, n),
        popcount(x, n) == popcount(y, n),
    decreases n,
{
    if n > 0 {
        lemma_comb_rank_frame(x, y, n - 1);
        assert(bit(x, n - 1) == bit(y, n - 1));
    }
}

/// Rank of the `p` largest values below `n` in the combinatorial number system: the largest
/// rank of a `p`-element subset of `0..n`.
pub open spec fn top_rank(n: nat, p: nat) -> nat
    decreases n,
{
    if p == 0 || n == 0 {
        0
    } else {
        top_rank((n - 1) as nat, (p - 1) as nat) + binomial((n - 1) as nat, p)
    }
}

pub proof fn lemma_binomial_mono_n(n: nat, p: nat)
    ensures
        binomial(n, p) <= binomial(n + 1, p),
{
    if p <= n {
        lemma_falling_mono_n(n, n + 1, p);
    }
    lemma_factorial_pos(p);
    let a = falling(n, p);
    let b = falling(n + 1, p);
    let g = factorial(p);
    assert(a / g <= b / g) by (nonlinear_arith)
        requires
            a <= b,
            g >= 1,
    ;
}

pub proof fn lemma_top_rank_mono(n: nat, p: nat)
    requires
        p <= n,
    ensures
        top_rank(n, p) <= top_rank(n + 1, p),
    decreases n,
{
    if p > 0 {
        lemma_top_rank_mono((n - 1) as nat, (p - 1) as nat);
        lemma_binomial_mono_n((n - 1) as nat, p);
    }
}

/// A `p`-element subset of `0..n` ranks at most as high as the `p` largest values.
pub proof fn lemma_comb_rank_top(x: u16, n: int)
    requires
        0 <= n <= 16,
    ensures
        comb_rank(x, n) <= top_rank(n as nat, popcount(x, n)),
    decreases n,
{
    if n > 0 {
        lemma_comb_rank_top(x, n - 1);
        lemma_popcount_bound(x, n - 1);
        if !bit(x, n - 1) {
            lemma_top_rank_mono((n - 1) as nat, popcount(x, n - 1));
        }
    }
}

/// The `p` largest values below `n` take the last of the `C(n, p)` ranks.
pub proof fn lemma_top_rank_pascal(n: nat, p: nat)
    requires
        p <= n,
    ensures
        top_rank(n, p) + 1 == pascal(n, p),
    decreases n,
{
    if p > 0 {
        lemma_top_rank_pascal((n - 1) as nat, (p - 1) as nat);
        lemma_binomial_pascal((n - 1) as nat, p);
    }
}

/// A subset of `0..n` ranks below the number of subsets of its size.
pub proof fn lemma_comb_rank_below(x: u16, n: int)
    requires
        0 <= n <= 16,
    ensures
        comb_rank(x, n) < binomial(n as nat, popcount(x, n)),
{
    lemma_comb_rank_top(x, n);
    lemma_popcount_bound(x, n);
    lemma_top_rank_pascal(n as nat, popcount(x, n));
    lemma_binomial_pascal(n as nat, popcount(x, n));
}

/// Sets of the same size with the same rank are equal below `n`.
pub proof fn lemma_comb_rank_injective(x: u16, y: u16, n: int)
    requires
        0 <= n <= 16,
        popcount(x, n) == popcount(y, n),
        comb_rank(x, n) == comb_rank(y, n),
    ensures
        forall|j: int| 0 <= j < n ==> #[trigger] bit(x, j) == bit(y, j),
    decreases n,
{
    if n > 0 {
        if bit(x, n - 1) && !bit(y, n - 1) {
            lemma_comb_rank_below(y, n - 1);
        } else if !bit(x, n - 1) && bit(y, n - 1) {
            lemma_comb_rank_below(x, n - 1);
        } else {
            lemma_comb_rank_injective(x, y, n - 1);
        }
    }
}

/// `falling(k, j) * (k - j)! == k!`
pub proof fn lemma_falling_factorial(k: nat, j: nat)
    requires
        j <= k,
    ensures
        falling(k, j) * factorial((k - j) as nat) == factorial(k),
    decreases j,
{
    if j > 0 {
        lemma_falling_factorial(k, (j - 1) as nat);
        let f: int = falling(k, (j - 1) as nat) as int;
        let g: int = factorial((k - j) as nat) as int;
        let a: int = k - j + 1;
        let fj: int = falling(k, j) as int;
        let kk: int = factorial(k) as int;
        assert(factorial((k - j + 1) as nat) == a * g);
        assert(fj == f * a);
        assert(fj * g == kk) by (nonlinear_arith)
            requires
                f * (a * g) == kk,
                fj == f * a,
        ;
        assert(falling(k, j) * factorial((k - j) as nat) == factorial(k));
    } else {
        assert(falling(k, 0) == 1);
        assert(1 * factorial(k) == factorial(k));
    }
}

/// `C(n, k) >= 1` for `k <= n`.
pub proof fn lemma_binomial_pos(n: nat, k: nat)
    requires
        k <= n,
    ensures
        binomial(n, k) >= 1,
{
    lemma_falling_factorial(k, k);
    lemma_falling_mono_n(k, n, k);
    lemma_factorial_pos(k);
    assert(factorial(0) == 1);
    assert(falling(k, k) * factorial(0) == falling(k, k));
    let a = falling(n, k);
    let g = factorial(k);
    assert(a / g >= 1) by (nonlinear_arith)
        requires
            a >= g,
            g >= 1,
    ;
}

/// A set of rank 0 contains, with each member `j`, all of `0..j`.
pub proof fn lemma_comb_rank_zero(x: u16, n: int)
    requires
        0 <= n <= 16,
        comb_rank(x, n) == 0,
    ensures
        forall|j: int| 0 <= j < n && bit(x, j) ==> #[trigger] popcount(x, j) == j,
    decreases n,
{
    if n > 0 {
        lemma_comb_rank_zero(x, n - 1);
        if bit(x, n - 1) {
            lemma_popcount_bound(x, n - 1);
            if popcount(x, n - 1) + 1 <= n - 1 {
                lemma_binomial_pos((n - 1) as nat, popcount(x, n - 1) + 1);
            }
        }
    }
}

pub proof fn lemma_popcount_full(x: u16, j: int)
    requires
        0 <= j <= 16,
        popcount(x, j) == j,
    ensures
        forall|i: int| 0 <= i < j ==> #[trigger] bit(x, i),
    decreases j,
{
    if j > 0 {
        lemma_popcount_bound(x, j - 1);
        lemma_popcount_full(x, j - 1);
    }
}

pub proof fn lemma_popcount_none_above(x: u16, a: int, b: int)
    requires
        0 <= a <= b <= 16,
        forall|i: int| a <= i < b ==> !#[trigger] bit(x, i),
    ensures
        popcount(x, b) == popcount(x, a),
    decreases b - a,
{
    if a < b {
        lemma_popcount_none_above(x, a, b - 1);
    }
}

/// A `k`-element set of rank 0 is `{0, ..., k - 1}`.
pub proof fn lemma_rank_zero_low(x: u16, k: nat)
    requires
        k < 16,
        popcount(x, 16) == k,
        comb_rank(x, 16) == 0,
    ensures
        x == low_mask(k),
{
    lemma_comb_rank_zero(x, 16);
    assert forall|j: int| 0 <= j < 16 implies #[trigger] bit(x, j) == bit(low_mask(k), j) by {
        lemma_low_mask(k, j);
        if bit(x, j) {
            assert(popcount(x, j) == j);
            assert(popcount(x, j + 1) == j + 1);
            lemma_popcount_mono(x, j + 1, 16);
        } else if j < k {
            assert forall|i: int| j <= i < 16 implies !#[trigger] bit(x, i) by {
                if bit(x, i) && i > j {
                    assert(popcount(x, i) == i);
                    lemma_popcount_full(x, i);
                }
            }
            lemma_popcount_none_above(x, j, 16);
            lemma_popcount_bound(x, j);
        }
    }
    lemma_bit_ext(x, low_mask(k));
}

/// A set with no members from `m` on has the same rank and size below any `n >= m`.
pub proof fn lemma_comb_rank_clear_above(x: u16, m: int, n: int)
    requires
        0 <= m <= n <= 16,
        forall|j: int| m <= j < 16 ==> !#[trigger] bit(x, j),
    ensures
        comb_rank(x, n) == comb_rank(x, m),
        popcount(x, n) == popcount(x, m),
    decreases n,
{
    if n > m {
        lemma_comb_rank_clear_above(x, m, n - 1);
    }
}

} // verus!
