//! The Lehmer code determines a permutation: different permutations have different indices.
use vstd::prelude::*;

use crate::math::{factorial, lemma_factorial_pos};
use crate::perm::{lehmer_digit, lehmer_index, lehmer_sum, lemma_lehmer_digit_bound, lemma_seen_odd_distinct, lemma_unseen_below_prefix, lemma_unseen_split, Perm};

verus! {

/// Entries of `s` are a permutation of `0..s.len()`.
pub open spec fn is_perm_seq(s: Seq<int>) -> bool {
    &&& forall|k: int| 0 <= k < s.len() ==> 0 <= #[trigger] s[k] < s.len()
    &&& forall|a: int, b: int| 0 <= a < s.len() && 0 <= b < s.len() && a != b ==> s[a] != s[b]
}

/// The Lehmer digits of the first `m` entries read as a number in the factorial base, in
/// units of `(n - m)!`.
pub open spec fn lehmer_quot(s: Seq<int>, m: int) -> int
    decreases m,
{
    if m <= 0 {
        0
    } else {
        lehmer_quot(s, m - 1) * (s.len() - m + 1) + lehmer_digit(s, m - 1)
    }
}

/// The first `m` digits make a multiple of `(n - m)!`.
proof fn lemma_lehmer_sum_quot(s: Seq<int>, m: int)
    requires
        0 <= m <= s.len(),
    ensures
        lehmer_sum(s, m) == lehmer_quot(s, m) * factorial((s.len() - m) as nat),
    decreases m,
{
    if m > 0 {
        lemma_lehmer_sum_quot(s, m - 1);
        let n = s.len() as int;
        let f = factorial((n - m) as nat) as int;
        let q = lehmer_quot(s, m - 1);
        let d = lehmer_digit(s, m - 1) as int;
        assert(factorial((n - m + 1) as nat) == (n - m + 1) * f);
        assert(lehmer_sum(s, m) == q * ((n - m + 1) * f) + d * f);
        assert(q * ((n - m + 1) * f) + d * f == (q * (n - m + 1) + d) * f) by (nonlinear_arith);
    }
}

/// The digits from position `m` on add up to less than `(n - m)!`.
proof fn lemma_lehmer_tail(s: Seq<int>, m: int)
    requires
        0 <= m <= s.len(),
        is_perm_seq(s),
    ensures
        0 <= lehmer_sum(s, s.len() as int) - lehmer_sum(s, m) < factorial((s.len() - m) as nat),
    decreases s.len() - m,
{
    let n = s.len() as int;
    if m == n {
        lemma_factorial_pos(0);
    } else {
        lemma_lehmer_tail(s, m + 1);
        lemma_lehmer_digit_bound(s, m);
        let f = factorial((n - m - 1) as nat) as int;
        let d = lehmer_digit(s, m) as int;
        let t = lehmer_sum(s, n) - lehmer_sum(s, m + 1);
        assert(lehmer_sum(s, m + 1) == lehmer_sum(s, m) + d * f);
        assert(factorial((n - m) as nat) == (n - m) * f);
        assert(t + d * f < (n - m) * f) by (nonlinear_arith)
            requires
                0 <= t < f,
                0 <= d <= n - m - 1,
        ;
        assert(d * f >= 0) by (nonlinear_arith)
            requires
                d >= 0,
                f >= 0,
        ;
    }
}

/// Division by a positive number has one quotient.
proof fn lemma_unique_quot(q1: int, r1: int, q2: int, r2: int, f: int)
    requires
        f > 0,
        0 <= r1 < f,
        0 <= r2 < f,
        q1 * f + r1 == q2 * f + r2,
    ensures
        q1 == q2,
{
    if q1 < q2 {
        assert(q1 * f + f <= q2 * f) by (nonlinear_arith)
            requires
                q1 < q2,
                f > 0,
        ;
    } else if q2 < q1 {
        assert(q2 * f + f <= q1 * f) by (nonlinear_arith)
            requires
                q2 < q1,
                f > 0,
        ;
    }
}

/// Permutations with the same index have the same Lehmer digits.
proof fn lemma_same_digits(s: Seq<int>, t: Seq<int>, m: int)
    requires
        s.len() == t.len(),
        0 <= m <= s.len(),
        is_perm_seq(s),
        is_perm_seq(t),
        lehmer_index(s) == lehmer_index(t),
    ensures
        lehmer_quot(s, m) == lehmer_quot(t, m),
        forall|i: int| 0 <= i < m ==> #[trigger] lehmer_digit(s, i) == lehmer_digit(t, i),
    decreases m,
{
    let n = s.len() as int;
    lemma_lehmer_sum_quot(s, m);
    lemma_lehmer_sum_quot(t, m);
    lemma_lehmer_tail(s, m);
    lemma_lehmer_tail(t, m);
    let f = factorial((n - m) as nat) as int;
    lemma_factorial_pos((n - m) as nat);
    lemma_unique_quot(
        lehmer_quot(s, m),
        lehmer_sum(s, n) - lehmer_sum(s, m),
        lehmer_quot(t, m),
        lehmer_sum(t, n) - lehmer_sum(t, m),
        f,
    );
    if m > 0 {
        lemma_same_digits(s, t, m - 1);
    }
}

/// Permutations with the same Lehmer digits agree on their first `m` entries.
proof fn lemma_digits_determine(s: Seq<int>, t: Seq<int>, m: int)
    requires
        s.len() == t.len(),
        0 <= m <= s.len(),
        is_perm_seq(s),
        is_perm_seq(t),
        forall|i: int| 0 <= i < s.len() ==> #[trigger] lehmer_digit(s, i) == lehmer_digit(t, i),
    ensures
        forall|k: int| 0 <= k < m ==> s[k] == t[k],
    decreases m,
{
    if m > 0 {
        let i = m - 1;
        lemma_digits_determine(s, t, i);
        assert(lehmer_digit(s, i) == lehmer_digit(t, i));
        lemma_unseen_below_prefix(s, t, i, t[i]);
        lemma_unseen_below_prefix(s, t, i, s[i]);
        lemma_seen_odd_distinct(s, i, s[i]);
        lemma_seen_odd_distinct(t, i, t[i]);
        lemma_seen_odd_distinct(s, i, t[i]);
        if exists|k: int| 0 <= k < i && #[trigger] s[k] == s[i] {
            let k = choose|k: int| 0 <= k < i && #[trigger] s[k] == s[i];
            assert(s[k] != s[i]);
        }
        if exists|k: int| 0 <= k < i && #[trigger] t[k] == t[i] {
            let k = choose|k: int| 0 <= k < i && #[trigger] t[k] == t[i];
            assert(t[k] != t[i]);
        }
        if exists|k: int| 0 <= k < i && #[trigger] s[k] == t[i] {
            let k = choose|k: int| 0 <= k < i && #[trigger] s[k] == t[i];
            assert(t[k] == s[k]);
            assert(t[k] != t[i]);
        }
        if s[i] < t[i] {
            lemma_unseen_split(s, i, s[i], t[i]);
        } else if t[i] < s[i] {
            lemma_unseen_split(s, i, t[i], s[i]);
        }
    }
}

/// Different orderings of `0..n` have different Lehmer indices.
pub proof fn lemma_lehmer_index_injective(s: Seq<int>, t: Seq<int>)
    requires
        s.len() == t.len(),
        is_perm_seq(s),
        is_perm_seq(t),
        lehmer_index(s) == lehmer_index(t),
    ensures
        s == t,
{
    lemma_same_digits(s, t, s.len() as int);
    lemma_digits_determine(s, t, s.len() as int);
    assert(s =~= t);
}

impl<const N: usize> Perm<N> {
    /// Different permutations have different indices, so `from_index` undoes `index`.
    pub proof fn law_index_injective(p: Self, q: Self)
        requires
            N <= 16,
            p.valid(),
            q.valid(),
            p.upper_clear(),
            q.upper_clear(),
            lehmer_index(p@) == lehmer_index(q@),
        ensures
            p == q,
    {
        let s = p@;
        let t = q@;
        assert(is_perm_seq(s)) by {
            assert forall|a: int, b: int| 0 <= a < s.len() && 0 <= b < s.len() && a != b implies s[a] != s[b] by {
                assert(p.dest_of(a) != p.dest_of(b));
            }
        }
        assert(is_perm_seq(t)) by {
            assert forall|a: int, b: int| 0 <= a < t.len() && 0 <= b < t.len() && a != b implies t[a] != t[b] by {
                assert(q.dest_of(a) != q.dest_of(b));
            }
        }
        lemma_same_digits(s, t, s.len() as int);
        lemma_digits_determine(s, t, s.len() as int);
        assert forall|i: int| 0 <= i < N implies p.dest_of(i) == q.dest_of(i) by {
            assert(s[i] == t[i]);
        }
        p.lemma_ext(q);
    }
}

} // verus!
