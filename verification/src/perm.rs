//! Permutations of at most 16 elements, packed four bits per element in a `u64`.
use vstd::prelude::*;

use crate::bitset::{bit, comb_rank, lemma_comb_rank_clear_above, members, test_bit, lemma_bit_ext, lemma_comb_rank_below, lemma_comb_rank_injective, lemma_rank_zero_low, lemma_bit_or, lemma_low_mask, lemma_popcount_zero, lemma_popcount_bound, lemma_popcount_low_mask, lemma_popcount_mono, lemma_popcount_or, low_mask, popcount};
use crate::math::{binom, binomial, factorial, fact, falling, perm, lemma_binomial_le_falling, lemma_factorial_mono, lemma_factorial_pos, lemma_falling_mono, lemma_falling_mono_n};
use vstd::set_lib::{set_int_range, lemma_int_range, lemma_map_size, lemma_subset_equality};
use vstd::relations::injective_on;
use crate::text::{decimal, push_decimal, text_of};
use crate::nibble::{nib, identity_bits, lemma_nib_bound, lemma_nib_or, lemma_nib_set, lemma_nib_ext, lemma_identity_bits, lemma_nib_zero};

verus! {

/// Whether value `v` occurs an odd number of times among the first `i` entries of `s`
/// (for a sequence without repeats: whether `v` occurs among them).
pub open spec fn seen_odd(s: Seq<int>, i: int, v: int) -> bool
    decreases i,
{
    if i <= 0 {
        false
    } else if s[i - 1] == v {
        !seen_odd(s, i - 1, v)
    } else {
        seen_odd(s, i - 1, v)
    }
}

/// Number of values in `0..v` not marked by `seen_odd(s, i, _)`.
pub open spec fn unseen_below(s: Seq<int>, i: int, v: int) -> nat
    decreases v,
{
    if v <= 0 {
        0
    } else {
        unseen_below(s, i, v - 1) + if seen_odd(s, i, v - 1) {
            0nat
        } else {
            1nat
        }
    }
}

/// Lehmer digit of position `i`: how many values smaller than `s[i]` are still unused
/// before position `i`.
pub open spec fn lehmer_digit(s: Seq<int>, i: int) -> nat {
    unseen_below(s, i, s[i])
}

/// `sum_{i < m} lehmer_digit(s, i) * (len - 1 - i)!`
pub open spec fn lehmer_sum(s: Seq<int>, m: int) -> nat
    decreases m,
{
    if m <= 0 {
        0
    } else {
        lehmer_sum(s, m - 1) + lehmer_digit(s, m - 1) * factorial((s.len() - m) as nat)
    }
}

/// Lexicographic rank of a permutation (its Lehmer code read in the factorial base).
pub open spec fn lehmer_index(s: Seq<int>) -> nat {
    lehmer_sum(s, s.len() as int)
}

pub proof fn lemma_seen_odd_prefix(s1: Seq<int>, s2: Seq<int>, i: int, v: int)
    requires
        0 <= i <= s1.len(),
        i <= s2.len(),
        forall|k: int| 0 <= k < i ==> s1[k] == s2[k],
    ensures
        seen_odd(s1, i, v) == seen_odd(s2, i, v),
    decreases i,
{
    if i > 0 {
        lemma_seen_odd_prefix(s1, s2, i - 1, v);
    }
}

pub proof fn lemma_unseen_below_prefix(s1: Seq<int>, s2: Seq<int>, i: int, v: int)
    requires
        0 <= i <= s1.len(),
        i <= s2.len(),
        forall|k: int| 0 <= k < i ==> s1[k] == s2[k],
    ensures
        unseen_below(s1, i, v) == unseen_below(s2, i, v),
    decreases v,
{
    if v > 0 {
        lemma_unseen_below_prefix(s1, s2, i, v - 1);
        lemma_seen_odd_prefix(s1, s2, i, v - 1);
    }
}

pub proof fn lemma_lehmer_sum_prefix(s1: Seq<int>, s2: Seq<int>, m: int)
    requires
        0 <= m <= s1.len(),
        s1.len() == s2.len(),
        forall|k: int| 0 <= k < m ==> s1[k] == s2[k],
    ensures
        lehmer_sum(s1, m) == lehmer_sum(s2, m),
    decreases m,
{
    if m > 0 {
        lemma_lehmer_sum_prefix(s1, s2, m - 1);
        lemma_unseen_below_prefix(s1, s2, m - 1, s1[m - 1]);
    }
}

/// Without repeats in the prefix, `seen_odd` is membership in the prefix.
pub proof fn lemma_seen_odd_distinct(s: Seq<int>, i: int, v: int)
    requires
        0 <= i <= s.len(),
        forall|a: int, b: int| 0 <= a < i && 0 <= b < i && a != b ==> s[a] != s[b],
    ensures
        seen_odd(s, i, v) <==> exists|k: int| 0 <= k < i && s[k] == v,
    decreases i,
{
    if i > 0 {
        lemma_seen_odd_distinct(s, i - 1, v);
        if s[i - 1] == v {
            if exists|k: int| 0 <= k < i - 1 && s[k] == v {
                let k = choose|k: int| 0 <= k < i - 1 && s[k] == v;
                assert(s[k] == s[i - 1]);
            }
        } else {
            if exists|k: int| 0 <= k < i && s[k] == v {
                let k = choose|k: int| 0 <= k < i && s[k] == v;
                assert(k != i - 1);
            }
        }
    }
}

pub proof fn lemma_unseen_below_bound(s: Seq<int>, i: int, v: int)
    ensures
        v >= 0 ==> unseen_below(s, i, v) <= v,
    decreases v,
{
    if v > 0 {
        lemma_unseen_below_bound(s, i, v - 1);
    }
}

/// Number of `false` entries of `used` below `v`.
pub open spec fn count_unused(used: Seq<bool>, v: int) -> nat
    decreases v,
{
    if v <= 0 {
        0
    } else {
        count_unused(used, v - 1) + if used[v - 1] {
            0nat
        } else {
            1nat
        }
    }
}

pub proof fn lemma_count_unused_mark(used: Seq<bool>, x: int, v: int)
    requires
        0 <= x < used.len(),
        !used[x],
        v <= used.len(),
    ensures
        count_unused(used.update(x, true), v) == if v > x {
            count_unused(used, v) - 1
        } else {
            count_unused(used, v) as int
        },
    decreases v,
{
    if v > 0 {
        lemma_count_unused_mark(used, x, v - 1);
    }
}

pub proof fn lemma_count_unused_mono(used: Seq<bool>, a: int, b: int)
    requires
        a <= b,
    ensures
        count_unused(used, a) <= count_unused(used, b),
    decreases b - a,
{
    if a < b {
        lemma_count_unused_mono(used, a, b - 1);
    }
}

pub proof fn lemma_count_unused_all_free(used: Seq<bool>, v: int)
    requires
        0 <= v <= used.len(),
        forall|w: int| 0 <= w < used.len() ==> !used[w],
    ensures
        count_unused(used, v) == v,
    decreases v,
{
    if v > 0 {
        lemma_count_unused_all_free(used, v - 1);
    }
}

/// The unseen count agrees with a `used` table that marks exactly the seen values.
pub proof fn lemma_unseen_is_unused(s: Seq<int>, i: int, used: Seq<bool>, v: int)
    requires
        0 <= v <= used.len(),
        forall|w: int| 0 <= w < v ==> (seen_odd(s, i, w) <==> used[w]),
    ensures
        unseen_below(s, i, v) == count_unused(used, v),
    decreases v,
{
    if v > 0 {
        lemma_unseen_is_unused(s, i, used, v - 1);
    }
}

/// The binomial coefficients used to rank a `k`-element subset of `0..16` all fit in a
/// `usize`, as does a sum of sixteen of them.
pub open spec fn rank_fits(k: nat) -> bool {
    let k2 = if k < 15 {
        k
    } else {
        15
    };
    &&& 16 * falling(15, k2) <= usize::MAX
    &&& factorial(k2) <= usize::MAX
}

/// Marking the value at position `i` as seen removes it from the unseen count above it.
pub proof fn lemma_unseen_step(s: Seq<int>, i: int, v: int)
    requires
        0 <= i < s.len(),
        !seen_odd(s, i, s[i]),
        0 <= s[i],
        v >= 0,
    ensures
        unseen_below(s, i + 1, v) + (if s[i] < v {
            1int
        } else {
            0int
        }) == unseen_below(s, i, v),
    decreases v,
{
    if v > 0 {
        lemma_unseen_step(s, i, v - 1);
        assert(seen_odd(s, i + 1, v - 1) == if s[i] == v - 1 {
            !seen_odd(s, i, v - 1)
        } else {
            seen_odd(s, i, v - 1)
        });
    }
}

/// The unseen count grows by at least the unseen values in between.
pub proof fn lemma_unseen_split(s: Seq<int>, i: int, a: int, b: int)
    requires
        0 <= a < b,
        !seen_odd(s, i, a),
    ensures
        unseen_below(s, i, a) + 1 <= unseen_below(s, i, b),
    decreases b - a,
{
    if b - 1 > a {
        lemma_unseen_split(s, i, a, b - 1);
    }
}

/// Entries of `s` below `n` without repeats leave at most `n - 1 - i` values unseen below
/// the `i`-th entry: its Lehmer digit.
pub proof fn lemma_lehmer_digit_bound_in(s: Seq<int>, i: int, n: int)
    requires
        0 <= i < s.len(),
        forall|k: int| 0 <= k < s.len() ==> 0 <= #[trigger] s[k] < n,
        forall|a: int, b: int| 0 <= a < s.len() && 0 <= b < s.len() && a != b ==> s[a] != s[b],
    ensures
        lehmer_digit(s, i) <= n - 1 - i,
{
    assert(0 <= s[0] < n);
    lemma_unseen_total_in(s, i, n);
    lemma_seen_odd_distinct(s, i, s[i]);
    if exists|k: int| #![trigger s[k]] 0 <= k < i && s[k] == s[i] {
        let k = choose|k: int| #![trigger s[k]] 0 <= k < i && s[k] == s[i];
        assert(s[k] != s[i]);
    }
    lemma_unseen_split(s, i, s[i], n);
}

/// A permutation of `0..n` (as a sequence) leaves `n - i` values unseen after `i` entries,
/// so its `i`-th Lehmer digit is at most `n - 1 - i`.
pub proof fn lemma_lehmer_digit_bound(s: Seq<int>, i: int)
    requires
        0 <= i < s.len(),
        forall|k: int| 0 <= k < s.len() ==> 0 <= #[trigger] s[k] < s.len(),
        forall|a: int, b: int| 0 <= a < s.len() && 0 <= b < s.len() && a != b ==> s[a] != s[b],
    ensures
        lehmer_digit(s, i) <= s.len() - 1 - i,
{
    lemma_lehmer_digit_bound_in(s, i, s.len() as int);
}

/// After `i` entries below `n` without repeats, exactly `n - i` values below `n` are unseen.
pub proof fn lemma_unseen_total_in(s: Seq<int>, i: int, n: int)
    requires
        0 <= n,
        0 <= i <= s.len(),
        forall|k: int| 0 <= k < s.len() ==> 0 <= #[trigger] s[k] < n,
        forall|a: int, b: int| 0 <= a < s.len() && 0 <= b < s.len() && a != b ==> s[a] != s[b],
    ensures
        unseen_below(s, i, n) == n - i,
    decreases i,
{
    if i == 0 {
        lemma_unseen_none(s, n);
    } else {
        lemma_unseen_total_in(s, i - 1, n);
        lemma_seen_odd_distinct(s, i - 1, s[i - 1]);
        if exists|k: int| #![trigger s[k]] 0 <= k < i - 1 && s[k] == s[i - 1] {
            let k = choose|k: int| #![trigger s[k]] 0 <= k < i - 1 && s[k] == s[i - 1];
            assert(s[k] != s[i - 1]);
        }
        lemma_unseen_step(s, i - 1, n);
    }
}

proof fn lemma_unseen_none(s: Seq<int>, v: int)
    requires
        v >= 0,
    ensures
        unseen_below(s, 0, v) == v,
    decreases v,
{
    if v > 0 {
        lemma_unseen_none(s, v - 1);
    }
}

/// The rank of a permutation of `0..n` is below `n!`.
pub proof fn lemma_lehmer_sum_bound(s: Seq<int>, m: int)
    requires
        0 <= m <= s.len(),
        forall|k: int| 0 <= k < s.len() ==> 0 <= #[trigger] s[k] < s.len(),
        forall|a: int, b: int| 0 <= a < s.len() && 0 <= b < s.len() && a != b ==> s[a] != s[b],
    ensures
        lehmer_sum(s, m) + factorial((s.len() - m) as nat) <= factorial(s.len()),
    decreases m,
{
    let n = s.len() as int;
    if m > 0 {
        lemma_lehmer_sum_bound(s, m - 1);
        lemma_lehmer_digit_bound(s, m - 1);
        let d = lehmer_digit(s, m - 1);
        let f = factorial((n - m) as nat);
        assert(factorial((n - m + 1) as nat) == (n - m + 1) * f);
        assert(d * f + f <= (n - m + 1) * f) by (nonlinear_arith)
            requires
                d <= n - m,
                f >= 0,
        ;
    }
}

/// An injective map from `0..n` into `0..n` reaches every element of `0..n`.
pub proof fn lemma_injective_surjective(f: spec_fn(int) -> int, n: int, j: int)
    requires
        0 <= j < n,
        forall|i: int| 0 <= i < n ==> 0 <= #[trigger] f(i) < n,
        forall|i: int, j: int| 0 <= i < n && 0 <= j < n && i != j ==> #[trigger] f(i) != #[trigger] f(j),
    ensures
        exists|i: int| 0 <= i < n && #[trigger] f(i) == j,
{
    let x = set_int_range(0, n);
    lemma_int_range(0, n);
    let y = x.map(f);
    assert(injective_on(f, x)) by {
        assert forall|a: int, b: int| x.contains(a) && x.contains(b) && #[trigger] f(a) == #[trigger] f(b) implies a == b by {
            if a != b {
                assert(f(a) != f(b));
            }
        }
    }
    lemma_map_size(x, y, f);
    assert(y.subset_of(x));
    lemma_subset_equality(y, x);
    assert(x.contains(j));
    assert(y.contains(j));
}

/// A permutation on N <= 16 elements.
/// The representation is a 64-bit integer, bits [4k, 4k+4) encode where the k-th element
/// is mapped to by the permutation.
#[derive(Copy, Clone, Eq, Debug)]
pub struct Perm<const N: usize>(u64);

impl<const N: usize> PartialEq for Perm<N> {
    fn eq(&self, other: &Self) -> (r: bool) {
        self.0 == other.0
    }
}

impl<const N: usize> vstd::std_specs::cmp::PartialEqSpecImpl for Perm<N> {
    open spec fn obeys_eq_spec() -> bool {
        true
    }

    open spec fn eq_spec(&self, other: &Self) -> bool {
        self.bits() == other.bits()
    }
}

impl<const N: usize> Default for Perm<N> {
    /// The identity permutation.
    fn default() -> (r: Self)
        ensures
            N <= 16 ==> r == Self::identity_perm(),
    {
        if N <= 16 {
            Self::new()
        } else {
            Self(0)
        }
    }
}

impl<const N: usize> core::ops::Add for Perm<N> {
    type Output = Self;

    /// `self` followed by `other`.
    fn add(self, other: Self) -> (r: Self)
        ensures
            r.is_compose_of(self, other),
    {
        self.compose(other)
    }
}

impl<const N: usize> vstd::std_specs::ops::AddSpecImpl for Perm<N> {
    open spec fn obeys_add_spec() -> bool {
        false
    }

    open spec fn add_req(self, rhs: Self) -> bool {
        &&& N <= 16
        &&& forall|i: int| 0 <= i < N ==> #[trigger] rhs.dest_of(self.dest_of(i)) < N
    }

    open spec fn add_spec(self, rhs: Self) -> Self {
        choose|r: Self| r.is_compose_of(self, rhs)
    }
}

impl<const N: usize> View for Perm<N> {
    type V = Seq<int>;

    /// Where each of the `N` elements is sent.
    open spec fn view(&self) -> Seq<int> {
        Seq::new(N as nat, |i: int| self.dest_of(i))
    }
}

impl<const N: usize> Perm<N> {
    /// The packed representation.
    pub closed spec fn bits(self) -> u64 {
        self.0
    }

    /// Where element `i` is sent (read from nibble `i`, for any `i < 16`).
    pub open spec fn dest_of(self, i: int) -> int {
        nib(self.bits(), i)
    }

    /// The nibbles above the `N` used ones are all zero.
    pub open spec fn upper_clear(self) -> bool {
        forall|j: int| N <= j < 16 ==> #[trigger] self.dest_of(j) == 0
    }

    /// Every element is sent to one of the `N` elements.
    pub open spec fn in_range(self) -> bool {
        forall|i: int| 0 <= i < N ==> #[trigger] self.dest_of(i) < N
    }

    /// The `N` destinations form a permutation of `0..N`.
    pub open spec fn valid(self) -> bool {
        &&& self.in_range()
        &&& forall|i: int, j: int|
            0 <= i < N && 0 <= j < N && i != j ==> #[trigger] self.dest_of(i) != #[trigger] self.dest_of(
                j,
            )
    }

    /// `self` is `p` followed by `q`: element `i` goes to `q.dest(p.dest(i))`.
    pub open spec fn is_compose_of(self, p: Self, q: Self) -> bool {
        &&& self.upper_clear()
        &&& forall|i: int| 0 <= i < N ==> #[trigger] self.dest_of(i) == q.dest_of(p.dest_of(i))
    }

    /// `self` undoes `p`: it sends `p.dest(i)` back to `i`.
    pub open spec fn is_inverse_of(self, p: Self) -> bool {
        &&& self.upper_clear()
        &&& forall|i: int| 0 <= i < N ==> #[trigger] self.dest_of(p.dest_of(i)) == i
    }

    /// Permutations are equal exactly when their representations are.
    pub proof fn lemma_bits_eq(a: Self, b: Self)
        ensures
            (a.bits() == b.bits()) == (a == b),
    {
    }

    /// The identity on `N` elements, with the upper nibbles clear.
    pub closed spec fn identity_perm() -> Self {
        Perm(identity_bits(N as nat))
    }

    /// Sends every element to itself, upper nibbles clear.
    pub open spec fn is_identity(self) -> bool {
        &&& forall|i: int| 0 <= i < N ==> #[trigger] self.dest_of(i) == i
        &&& self.upper_clear()
    }

    pub proof fn lemma_identity_perm()
        requires
            N <= 16,
        ensures
            Self::identity_perm().is_identity(),
            Self::identity_perm().valid(),
    {
        assert forall|j: int| 0 <= j < 16 implies #[trigger] Self::identity_perm().dest_of(j) == if j
            < N {
            j
        } else {
            0
        } by {
            lemma_identity_bits(N as nat, j);
        }
    }

    /// A permutation equals the canonical identity exactly when it is the identity.
    pub proof fn lemma_is_identity_eq(self)
        requires
            N <= 16,
        ensures
            self.is_identity() <==> self == Self::identity_perm(),
    {
        Self::lemma_identity_perm();
        if self.is_identity() {
            assert forall|j: int| 0 <= j < 16 implies nib(self.bits(), j) == nib(
                Self::identity_perm().bits(),
                j,
            ) by {
                if j < N {
                    assert(self.dest_of(j) == j);
                    assert(Self::identity_perm().dest_of(j) == j);
                } else {
                    assert(self.dest_of(j) == 0);
                    assert(Self::identity_perm().dest_of(j) == 0);
                }
            }
            lemma_nib_ext(self.bits(), Self::identity_perm().bits());
        }
    }

    /// Two permutations with the same destinations and clear upper nibbles are equal.
    pub proof fn lemma_ext(self, other: Self)
        requires
            N <= 16,
            self.upper_clear(),
            other.upper_clear(),
            forall|i: int| 0 <= i < N ==> self.dest_of(i) == other.dest_of(i),
        ensures
            self == other,
    {
        assert forall|j: int| 0 <= j < 16 implies nib(self.bits(), j) == nib(other.bits(), j) by {
            if j < N {
                assert(self.dest_of(j) == other.dest_of(j));
            } else {
                assert(self.dest_of(j) == 0);
                assert(other.dest_of(j) == 0);
            }
        }
        lemma_nib_ext(self.bits(), other.bits());
    }

    proof fn lemma_zero()
        ensures
            forall|k: int| 0 <= k < 16 ==> #[trigger] Self(0).dest_of(k) == 0,
    {
        assert forall|k: int| 0 <= k < 16 implies #[trigger] Self(0).dest_of(k) == 0 by {
            lemma_nib_zero(k);
        }
    }

    /// The identity permutation.
    pub fn new() -> (r: Self)
        requires
            N <= 16,
        ensures
            r == Self::identity_perm(),
            r.is_identity(),
            r.valid(),
    {
        proof {
            Self::lemma_identity_perm();
        }
        if N == 16 {
            return Perm(0xfedcba9876543210u64);
        }
        let nbits: u64 = 4 * N as u64;
        assert((1u64 << nbits) >= 1) by (bit_vector)
            requires
                nbits < 64,
        ;
        let mask: u64 = (1u64 << nbits) - 1;
        Perm(0xfedcba9876543210u64 & mask)
    }

    /// The permutation, directly from the internal representation.
    pub fn from_repr(repr: u64) -> (r: Self)
        ensures
            r.bits() == repr,
    {
        Self(repr)
    }

    /// The internal representation.
    pub fn repr(&self) -> (r: u64)
        ensures
            r == self.bits(),
    {
        self.0
    }

    /// The index that the item at index `i` is sent to.
    pub fn dest(&self, i: usize) -> (r: usize)
        requires
            i < 16,
        ensures
            r == self.dest_of(i as int),
            r < 16,
    {
        proof {
            lemma_nib_bound(self.bits(), i as int);
        }
        ((self.0 >> (4 * i as u64)) & 0xf) as usize
    }

    /// Whether the `N` destinations form a permutation of `0..N`.
    pub fn is_valid(&self) -> (r: bool)
        requires
            N <= 16,
            self.in_range(),
        ensures
            r == self.valid(),
    {
        let mut used: Vec<bool> = Vec::new();
        let mut k: usize = 0;
        while k < N
            invariant
                k <= N,
                used@.len() == k,
                forall|v: int| 0 <= v < k ==> !used@[v],
            decreases N - k,
        {
            used.push(false);
            k = k + 1;
        }
        let mut i: usize = 0;
        while i < N
            invariant
                N <= 16,
                self.in_range(),
                i <= N,
                used@.len() == N,
                forall|v: int|
                    0 <= v < N ==> (#[trigger] used@[v] <==> exists|k: int|
                        0 <= k < i && self.dest_of(k) == v),
                forall|a: int, b: int|
                    0 <= a < i && 0 <= b < i && a != b ==> #[trigger] self.dest_of(a)
                        != #[trigger] self.dest_of(b),
            decreases N - i,
        {
            let j = self.dest(i);
            assert(self.dest_of(i as int) < N);
            if used[j] || j >= N {
                proof {
                    let k = choose|k: int| 0 <= k < i && self.dest_of(k) == j;
                    assert(self.dest_of(k) == self.dest_of(i as int));
                }
                return false;
            }
            used.set(j, true);
            proof {
                assert forall|v: int| 0 <= v < N implies (#[trigger] used@[v] <==> exists|k: int|
                    0 <= k < i + 1 && self.dest_of(k) == v) by {
                    if v == j {
                        assert(self.dest_of(i as int) == v);
                    } else {
                        if exists|k: int| 0 <= k < i + 1 && self.dest_of(k) == v {
                            let k = choose|k: int| 0 <= k < i + 1 && self.dest_of(k) == v;
                            assert(k != i);
                        }
                    }
                }
                assert forall|a: int, b: int|
                    0 <= a < i + 1 && 0 <= b < i + 1 && a != b implies #[trigger] self.dest_of(a)
                    != #[trigger] self.dest_of(b) by {
                    if a == i && b < i {
                        assert(!used@[self.dest_of(b)] || true);
                    }
                }
            }
            i = i + 1;
        }
        true
    }

    /// The permutation corresponding to a swap of the two given elements.
    pub fn from_swap(i: usize, j: usize) -> (r: Self)
        requires
            N < 16,
            i < N,
            j < N,
        ensures
            r.upper_clear(),
            r.valid(),
            r.dest_of(i as int) == j,
            r.dest_of(j as int) == i,
            forall|k: int| 0 <= k < N && k != i && k != j ==> #[trigger] r.dest_of(k) == k,
    {
        let mut ret = Self::new();
        ret.set_dest(i, j);
        ret.set_dest(j, i);
        ret
    }

    /// The permutation corresponding to a cycle of the given elements: the first is sent to
    /// the second, the second to the third, and so on, the last to the first.
    pub fn from_cycle(cycle: &[usize]) -> (r: Self)
        requires
            N < 16,
            distinct_below(cycle@, N as int),
        ensures
            r.valid(),
            r.upper_clear(),
            forall|i: int|
                0 <= i < cycle@.len() ==> #[trigger] r.dest_of(cycle@[i] as int) == cycle@[(i + 1)
                    % cycle@.len() as int],
            forall|x: int| 0 <= x < N && !member(cycle@, x) ==> #[trigger] r.dest_of(x) == x,
    {
        let mut ret = Self::new();
        let n = cycle.len();
        let mut i: usize = 0;
        while i < n
            invariant
                N < 16,
                n == cycle@.len(),
                i <= n,
                distinct_below(cycle@, N as int),
                forall|k: int| 0 <= k < i ==> #[trigger] ret.dest_of(cycle@[k] as int) == cycle@[(k + 1)
                    % n as int],
                forall|x: int|
                    0 <= x < 16 && !(exists|k: int| 0 <= k < i && #[trigger] cycle@[k] == x) ==> #[trigger] ret.dest_of(
                        x,
                    ) == if x < N {
                        x
                    } else {
                        0
                    },
            decreases n - i,
        {
            let a = cycle[i];
            let b = cycle[(i + 1) % n];
            ret.set_dest(a, b);
            proof {
                assert forall|k: int| 0 <= k < i + 1 implies #[trigger] ret.dest_of(cycle@[k] as int)
                    == cycle@[(k + 1) % n as int] by {
                    if k < i {
                        assert(cycle@[k] != cycle@[i as int]);
                    }
                }
                assert forall|x: int|
                    0 <= x < 16 && !(exists|k: int| 0 <= k < i + 1 && #[trigger] cycle@[k] == x) implies #[trigger] ret.dest_of(
                        x,
                    ) == if x < N {
                        x
                    } else {
                        0
                    } by {
                    assert(x != cycle@[i as int]);
                    if exists|k: int| 0 <= k < i && #[trigger] cycle@[k] == x {
                        let k = choose|k: int| 0 <= k < i && #[trigger] cycle@[k] == x;
                        assert(0 <= k < i + 1 && cycle@[k] == x);
                    }
                }
            }
            i = i + 1;
        }
        proof {
            assert forall|x: int| 0 <= x < N && !member(cycle@, x) implies #[trigger] ret.dest_of(x) == x by {
                if exists|k: int| 0 <= k < n && #[trigger] cycle@[k] == x {
                    let k = choose|k: int| 0 <= k < n && #[trigger] cycle@[k] == x;
                    assert(member(cycle@, x));
                }
            }
            assert forall|j: int| N <= j < 16 implies #[trigger] ret.dest_of(j) == 0 by {
                if exists|k: int| 0 <= k < n && #[trigger] cycle@[k] == j {
                    let k = choose|k: int| 0 <= k < n && #[trigger] cycle@[k] == j;
                }
            }
            assert forall|x: int| 0 <= x < N implies #[trigger] ret.dest_of(x) < N by {
                if member(cycle@, x) {
                    let k = choose|k: int| 0 <= k < cycle@.len() && #[trigger] cycle@[k] == x;
                    assert(cycle@[(k + 1) % n as int] < N);
                }
            }
            assert forall|x: int, y: int| 0 <= x < N && 0 <= y < N && x != y implies #[trigger] ret.dest_of(
                x,
            ) != #[trigger] ret.dest_of(y) by {
                if member(cycle@, x) && member(cycle@, y) {
                    let kx = choose|k: int| 0 <= k < cycle@.len() && #[trigger] cycle@[k] == x;
                    let ky = choose|k: int| 0 <= k < cycle@.len() && #[trigger] cycle@[k] == y;
                    assert(kx != ky);
                    let a = (kx + 1) % n as int;
                    let b = (ky + 1) % n as int;
                    lemma_next_index(kx, n as int);
                    lemma_next_index(ky, n as int);
                    assert(cycle@[a] != cycle@[b]);
                } else if member(cycle@, x) {
                    let kx = choose|k: int| 0 <= k < cycle@.len() && #[trigger] cycle@[k] == x;
                    let a = (kx + 1) % n as int;
                    assert(member(cycle@, cycle@[a] as int));
                } else if member(cycle@, y) {
                    let ky = choose|k: int| 0 <= k < cycle@.len() && #[trigger] cycle@[k] == y;
                    let b = (ky + 1) % n as int;
                    assert(member(cycle@, cycle@[b] as int));
                }
            }
        }
        ret
    }

    /// The permutation specified by the given array of `dest` values.
    pub fn from_dests(dests: &[usize; N]) -> (r: Self)
        requires
            N <= 16,
            forall|i: int| 0 <= i < N ==> #[trigger] dests@[i] < N,
            forall|i: int, j: int|
                0 <= i < N && 0 <= j < N && i != j ==> #[trigger] dests@[i] != #[trigger] dests@[j],
        ensures
            r.upper_clear(),
            r.valid(),
            forall|i: int| 0 <= i < N ==> #[trigger] r.dest_of(i) == dests@[i],
    {
        let mut ret = Self(0);
        proof {
            Self::lemma_zero();
        }
        let mut i: usize = 0;
        while i < N
            invariant
                N <= 16,
                i <= N,
                forall|k: int| 0 <= k < N ==> #[trigger] dests@[k] < N,
                forall|k: int| 0 <= k < 16 ==> #[trigger] ret.dest_of(k) == if k < i {
                    dests@[k] as int
                } else {
                    0
                },
            decreases N - i,
        {
            proof {
                lemma_nib_zero(i as int);
            }
            ret.set_dest_nomask(i, dests[i]);
            i = i + 1;
        }
        ret
    }

    /// The element which is sent to `i`.
    pub fn source(&self, i: usize) -> (r: usize)
        requires
            N <= 16,
            i < N,
            exists|j: int| 0 <= j < N && self.dest_of(j) == i,
        ensures
            r < N,
            self.dest_of(r as int) == i,
            forall|k: int| 0 <= k < r ==> #[trigger] self.dest_of(k) != i,
    {
        let mut j: usize = 0;
        while j < N
            invariant
                N <= 16,
                j <= N,
                forall|k: int| 0 <= k < j ==> #[trigger] self.dest_of(k) != i,
                exists|k: int| 0 <= k < N && self.dest_of(k) == i,
            decreases N - j,
        {
            if self.dest(j) == i {
                return j;
            }
            j = j + 1;
        }
        proof {
            let k = choose|k: int| 0 <= k < N && self.dest_of(k) == i;
            assert(self.dest_of(k) != i);
        }
        0
    }

    /// `self` followed by `rhs`: element `i` goes to `rhs.dest(self.dest(i))`.
    pub fn compose(&self, rhs: Self) -> (r: Self)
        requires
            N <= 16,
            forall|i: int| 0 <= i < N ==> #[trigger] rhs.dest_of(self.dest_of(i)) < N,
        ensures
            r.is_compose_of(*self, rhs),
    {
        let mut ret = Self(0);
        proof {
            Self::lemma_zero();
        }
        let mut i: usize = 0;
        while i < N
            invariant
                N <= 16,
                i <= N,
                forall|k: int| 0 <= k < N ==> #[trigger] rhs.dest_of(self.dest_of(k)) < N,
                forall|k: int| 0 <= k < 16 ==> #[trigger] ret.dest_of(k) == if k < i {
                    rhs.dest_of(self.dest_of(k))
                } else {
                    0
                },
            decreases N - i,
        {
            let j = self.dest(i);
            let k = rhs.dest(j);
            proof {
                lemma_nib_zero(i as int);
            }
            ret.set_dest_nomask(i, k);
            i = i + 1;
        }
        ret
    }

    /// OR of all elements `i < upto` that are sent to `j`; for a valid permutation this is
    /// the unique element sent to `j` (once `upto` has passed it).
    pub open spec fn or_sources(self, j: int, upto: int) -> int
        decreases upto,
    {
        if upto <= 0 {
            0
        } else if self.dest_of(upto - 1) == j {
            ((self.or_sources(j, upto - 1) as u64) | ((upto - 1) as u64)) as int
        } else {
            self.or_sources(j, upto - 1)
        }
    }

    /// In a valid permutation every element has a source.
    pub proof fn lemma_has_source(self, j: int)
        requires
            self.valid(),
            0 <= j < N,
        ensures
            exists|i: int| 0 <= i < N && self.dest_of(i) == j,
    {
        let f = |i: int| self.dest_of(i);
        assert forall|i: int, k: int| 0 <= i < N && 0 <= k < N && i != k implies #[trigger] f(i)
            != #[trigger] f(k) by {
            assert(self.dest_of(i) != self.dest_of(k));
        }
        lemma_injective_surjective(f, N as int, j);
        let i = choose|i: int| 0 <= i < N && #[trigger] f(i) == j;
        assert(self.dest_of(i) == j);
    }

    proof fn lemma_or_sources_bound(self, j: int, upto: int)
        requires
            upto <= 16,
        ensures
            0 <= self.or_sources(j, upto) < 16,
        decreases upto,
    {
        if upto > 0 {
            self.lemma_or_sources_bound(j, upto - 1);
            let a = self.or_sources(j, upto - 1) as u64;
            let b = (upto - 1) as u64;
            assert(a | b < 16) by (bit_vector)
                requires
                    a < 16,
                    b < 16,
            ;
        }
    }

    proof fn lemma_or_sources_valid(self, i: int, upto: int)
        requires
            self.valid(),
            0 <= i < N,
            upto <= N,
        ensures
            self.or_sources(self.dest_of(i), upto) == if upto > i {
                i
            } else {
                0
            },
        decreases upto,
    {
        if upto > 0 {
            self.lemma_or_sources_valid(i, upto - 1);
            if upto - 1 == i {
                let b = i as u64;
                assert((0u64 | b) == b) by (bit_vector);
            }
        }
    }

    /// The inverse permutation: element `dest(i)` is sent back to `i`.
    pub fn inverse(&self) -> (r: Self)
        requires
            N <= 16,
            self.in_range(),
        ensures
            r.upper_clear(),
            forall|j: int| 0 <= j < N ==> #[trigger] r.dest_of(j) == self.or_sources(j, N as int),
            self.valid() ==> r.valid() && r.is_inverse_of(*self),
    {
        let mut ret = Self(0);
        proof {
            Self::lemma_zero();
        }
        let mut i: usize = 0;
        while i < N
            invariant
                N <= 16,
                i <= N,
                self.in_range(),
                forall|k: int| 0 <= k < 16 ==> #[trigger] ret.dest_of(k) == if k < N {
                    self.or_sources(k, i as int)
                } else {
                    0
                },
            decreases N - i,
        {
            let j = self.dest(i);
            let ghost old_ret = ret;
            ret.set_dest_nomask(j, i);
            proof {
                assert forall|k: int| 0 <= k < 16 implies #[trigger] ret.dest_of(k) == if k < N {
                    self.or_sources(k, i + 1)
                } else {
                    0
                } by {
                    if k == j {
                        assert(old_ret.dest_of(k) == self.or_sources(k, i as int));
                        self.lemma_or_sources_bound(k, i as int);
                    }
                }
            }
            i = i + 1;
        }
        proof {
            if self.valid() {
                assert forall|i: int| 0 <= i < N implies #[trigger] ret.dest_of(self.dest_of(i))
                    == i by {
                    self.lemma_or_sources_valid(i, N as int);
                }
                assert forall|j: int| 0 <= j < N implies #[trigger] ret.dest_of(j) < N by {
                    self.lemma_has_source(j);
                    let i = choose|i: int| 0 <= i < N && self.dest_of(i) == j;
                    self.lemma_or_sources_valid(i, N as int);
                }
                assert forall|a: int, b: int|
                    0 <= a < N && 0 <= b < N && a != b implies #[trigger] ret.dest_of(a)
                    != #[trigger] ret.dest_of(b) by {
                    self.lemma_has_source(a);
                    self.lemma_has_source(b);
                    let ia = choose|i: int| 0 <= i < N && self.dest_of(i) == a;
                    let ib = choose|i: int| 0 <= i < N && self.dest_of(i) == b;
                    self.lemma_or_sources_valid(ia, N as int);
                    self.lemma_or_sources_valid(ib, N as int);
                }
            }
        }
        ret
    }

    /// Index of this permutation, some integer in [0, N!). The index of the identity
    /// is 0.
    pub fn index(&self) -> (r: usize)
        requires
            N <= 16,
            16 * factorial(N as nat) <= usize::MAX,
        ensures
            r == lehmer_index(self@),
            self.valid() ==> r < factorial(N as nat),
    {
        proof {
            if self.valid() {
                self.law_index_bound();
            }
        }
        let mut seen: Vec<bool> = Vec::new();
        let mut k: usize = 0;
        while k < 16
            invariant
                k <= 16,
                seen@.len() == k,
                forall|v: int| 0 <= v < k ==> !seen@[v],
            decreases 16 - k,
        {
            seen.push(false);
            k = k + 1;
        }
        let ghost s = self@;
        proof {
            if N > 0 {
                lemma_factorial_mono((N - 1) as nat, N as nat);
                assert(factorial(N as nat) == N * factorial((N - 1) as nat));
            }
        }
        let mut ans: usize = 0;
        let mut i: usize = 0;
        while i < N
            invariant
                N <= 16,
                16 * factorial(N as nat) <= usize::MAX,
                N > 0 ==> factorial(N as nat) == N * factorial((N - 1) as nat),
                s == self@,
                i <= N,
                seen@.len() == 16,
                forall|v: int| 0 <= v < 16 ==> #[trigger] seen@[v] == seen_odd(s, i as int, v),
                ans == lehmer_sum(s, i as int),
                N > 0 ==> ans <= 15 * i * factorial((N - 1) as nat),
            decreases N - i,
        {
            let d = self.dest(i);
            let mut cnt: usize = 0;
            let mut v: usize = 0;
            while v < d
                invariant
                    v <= d < 16,
                    seen@.len() == 16,
                    forall|w: int| 0 <= w < 16 ==> #[trigger] seen@[w] == seen_odd(s, i as int, w),
                    cnt == unseen_below(s, i as int, v as int),
                    cnt <= v,
                decreases d - v,
            {
                if !seen[v] {
                    cnt = cnt + 1;
                }
                v = v + 1;
            }
            proof {
                lemma_factorial_mono((N - 1 - i) as nat, (N - 1) as nat);
                let f = factorial((N - 1 - i) as nat);
                let g = factorial((N - 1) as nat);
                assert(cnt * f <= 15 * g) by (nonlinear_arith)
                    requires
                        cnt <= 15,
                        f <= g,
                ;
                assert(15 * i * g + 15 * g == 15 * (i + 1) * g) by (nonlinear_arith);
                assert(15 * (i + 1) * g <= 15 * N * g) by (nonlinear_arith)
                    requires
                        i + 1 <= N,
                ;
                assert(15 * N * g == 15 * (N * g)) by (nonlinear_arith);
            }
            let f = fact(N - 1 - i);
            ans = ans + cnt * f;
            let old_seen = seen[d];
            seen.set(d, !old_seen);
            i = i + 1;
        }
        ans
    }

    /// The `ord`-th (counting from 0) unused entry of `used`.
    fn nth_unused(used: &Vec<bool>, ord: usize) -> (x: usize)
        requires
            ord < count_unused(used@, used@.len() as int),
        ensures
            x < used@.len(),
            !used@[x as int],
            count_unused(used@, x as int) == ord,
    {
        let mut v: usize = 0;
        let mut cnt: usize = 0;
        while v < used.len()
            invariant
                v <= used@.len(),
                cnt == count_unused(used@, v as int),
                cnt <= ord,
                ord < count_unused(used@, used@.len() as int),
            decreases used@.len() - v,
        {
            if !used[v] {
                if cnt == ord {
                    return v;
                }
                cnt = cnt + 1;
            }
            v = v + 1;
        }
        0
    }

    /// The permutation with the given index, the inverse operation of `index`.
    pub fn from_index(index: usize) -> (r: Self)
        requires
            N <= 16,
            factorial(N as nat) <= usize::MAX,
            N > 0 ==> index < factorial(N as nat),
        ensures
            r.valid(),
            r.upper_clear(),
            N > 0 ==> lehmer_index(r@) == index,
            N > 0 ==> forall|p: Self|
                p.valid() && p.upper_clear() && #[trigger] lehmer_index(p@) == index ==> r == p,
    {
        let mut ret = Self(0);
        proof {
            Self::lemma_zero();
        }
        let mut used: Vec<bool> = Vec::new();
        let mut k: usize = 0;
        while k < N
            invariant
                k <= N,
                used@.len() == k,
                forall|v: int| 0 <= v < k ==> !used@[v],
            decreases N - k,
        {
            used.push(false);
            k = k + 1;
        }
        proof {
            lemma_count_unused_all_free(used@, N as int);
        }
        let mut rem = index;
        let mut i: usize = 0;
        while i < N
            invariant
                N <= 16,
                factorial(N as nat) <= usize::MAX,
                i <= N,
                used@.len() == N,
                count_unused(used@, N as int) == N - i,
                forall|k: int| 0 <= k < 16 && k >= i ==> #[trigger] ret.dest_of(k) == 0,
                forall|k: int| 0 <= k < i ==> #[trigger] ret.dest_of(k) < N,
                forall|a: int, b: int|
                    0 <= a < i && 0 <= b < i && a != b ==> #[trigger] ret.dest_of(a)
                        != #[trigger] ret.dest_of(b),
                forall|v: int|
                    0 <= v < N ==> (#[trigger] used@[v] <==> exists|k: int|
                        0 <= k < i && ret.dest_of(k) == v),
                N > 0 ==> index == lehmer_sum(ret@, i as int) + rem,
                N > 0 ==> rem < factorial((N - i) as nat),
            decreases N - i,
        {
            proof {
                lemma_factorial_mono((N - 1 - i) as nat, N as nat);
                lemma_factorial_pos((N - 1 - i) as nat);
                assert(factorial((N - i) as nat) == (N - i) * factorial((N - 1 - i) as nat));
            }
            let q = fact(N - 1 - i);
            let ord = rem / q;
            let ghost old_rem = rem;
            rem = rem % q;
            proof {
                let f = q as int;
                let o = old_rem as int;
                assert(ord < N - i) by (nonlinear_arith)
                    requires
                        ord == o / f,
                        o < (N - i) * f,
                        f >= 1,
                ;
                assert(o == ord * f + rem) by (nonlinear_arith)
                    requires
                        ord == o / f,
                        rem == o % f,
                        f >= 1,
                ;
            }
            let x = Self::nth_unused(&used, ord);
            let ghost old_ret = ret;
            let ghost old_used = used@;
            ret.set_dest_nomask(i, x);
            used.set(x, true);
            proof {
                lemma_count_unused_mark(old_used, x as int, N as int);
                let s0 = old_ret@;
                let s1 = ret@;
                assert forall|k: int| 0 <= k < i implies s0[k] == s1[k] by {
                    assert(s0[k] == old_ret.dest_of(k));
                    assert(s1[k] == ret.dest_of(k));
                }
                lemma_lehmer_sum_prefix(s0, s1, i as int);
                // The new digit is `ord`.
                assert forall|a: int, b: int| 0 <= a < i && 0 <= b < i && a != b implies s1[a]
                    != s1[b] by {
                    assert(ret.dest_of(a) != ret.dest_of(b));
                }
                assert forall|w: int| 0 <= w < x implies (seen_odd(s1, i as int, w)
                    <==> old_used[w]) by {
                    lemma_seen_odd_distinct(s1, i as int, w);
                    if old_used[w] {
                        let k = choose|k: int| 0 <= k < i && old_ret.dest_of(k) == w;
                        assert(s1[k] == w);
                    }
                    if exists|k: int| 0 <= k < i && s1[k] == w {
                        let k = choose|k: int| 0 <= k < i && s1[k] == w;
                        assert(old_ret.dest_of(k) == w);
                    }
                }
                lemma_unseen_is_unused(s1, i as int, old_used, x as int);
                assert(s1[i as int] == x);
                assert(lehmer_digit(s1, i as int) == ord);
                assert(lehmer_sum(s1, i + 1) == lehmer_sum(s1, i as int) + ord * q);
                // Distinctness and the used table.
                assert forall|a: int, b: int|
                    0 <= a < i + 1 && 0 <= b < i + 1 && a != b implies #[trigger] ret.dest_of(a)
                    != #[trigger] ret.dest_of(b) by {
                    if a == i {
                        assert(!old_used[x as int]);
                        if exists|k: int| 0 <= k < i && old_ret.dest_of(k) == x {
                            let k = choose|k: int| 0 <= k < i && old_ret.dest_of(k) == x;
                            assert(old_used[x as int]);
                        }
                        assert(old_ret.dest_of(b) == ret.dest_of(b));
                    } else if b == i {
                        if exists|k: int| 0 <= k < i && old_ret.dest_of(k) == x {
                            let k = choose|k: int| 0 <= k < i && old_ret.dest_of(k) == x;
                            assert(old_used[x as int]);
                        }
                        assert(old_ret.dest_of(a) == ret.dest_of(a));
                    } else {
                        assert(old_ret.dest_of(a) == ret.dest_of(a));
                        assert(old_ret.dest_of(b) == ret.dest_of(b));
                    }
                }
                assert forall|v: int| 0 <= v < N implies (#[trigger] used@[v] <==> exists|k: int|
                    0 <= k < i + 1 && ret.dest_of(k) == v) by {
                    if v == x {
                        assert(ret.dest_of(i as int) == v);
                    } else {
                        if old_used[v] {
                            let k = choose|k: int| 0 <= k < i && old_ret.dest_of(k) == v;
                            assert(ret.dest_of(k) == v);
                        }
                        if exists|k: int| 0 <= k < i + 1 && ret.dest_of(k) == v {
                            let k = choose|k: int| 0 <= k < i + 1 && ret.dest_of(k) == v;
                            assert(k != i);
                            assert(old_ret.dest_of(k) == v);
                        }
                    }
                }
            }
            i = i + 1;
        }
        proof {
            if N > 0 {
                assert(factorial(0) == 1);
                assert(rem == 0);
            }
        }
        proof {
            assert forall|p: Self|
                N > 0 && p.valid() && p.upper_clear() && #[trigger] lehmer_index(p@) == index implies ret
                == p by {
                Self::law_index_injective(ret, p);
            }
        }
        ret
    }

    /// The index of a permutation lies in `[0, N!)`.
    pub proof fn law_index_bound(self)
        requires
            self.valid(),
        ensures
            lehmer_index(self@) < factorial(N as nat),
    {
        let s = self@;
        assert forall|k: int| 0 <= k < s.len() implies 0 <= #[trigger] s[k] < s.len() by {
            assert(s[k] == self.dest_of(k));
        }
        assert forall|a: int, b: int| 0 <= a < s.len() && 0 <= b < s.len() && a != b implies s[a]
            != s[b] by {
            assert(self.dest_of(a) != self.dest_of(b));
        }
        lemma_lehmer_sum_bound(s, s.len() as int);
        assert(factorial(0) == 1);
    }

    /// Composing two permutations gives a permutation.
    pub proof fn law_compose_valid(r: Self, p: Self, q: Self)
        requires
            p.valid(),
            q.valid(),
            r.is_compose_of(p, q),
        ensures
            r.valid(),
    {
        assert forall|i: int, j: int|
            0 <= i < N && 0 <= j < N && i != j implies #[trigger] r.dest_of(i) != #[trigger] r.dest_of(
            j,
        ) by {
            assert(p.dest_of(i) != p.dest_of(j));
        }
    }

    /// The inverse of a permutation is a permutation.
    pub proof fn lemma_inverse_valid(inv: Self, p: Self)
        requires
            p.valid(),
            inv.is_inverse_of(p),
        ensures
            inv.valid(),
            forall|j: int| 0 <= j < N ==> #[trigger] p.dest_of(inv.dest_of(j)) == j,
    {
        assert forall|j: int| 0 <= j < N implies #[trigger] inv.dest_of(j) < N && p.dest_of(
            inv.dest_of(j),
        ) == j by {
            p.lemma_has_source(j);
            let i = choose|i: int| 0 <= i < N && p.dest_of(i) == j;
            assert(inv.dest_of(p.dest_of(i)) == i);
        }
        assert forall|a: int, b: int|
            0 <= a < N && 0 <= b < N && a != b implies #[trigger] inv.dest_of(a) != #[trigger] inv.dest_of(
            b,
        ) by {
            assert(p.dest_of(inv.dest_of(a)) == a);
            assert(p.dest_of(inv.dest_of(b)) == b);
        }
    }

    /// Composition is associative.
    pub proof fn law_compose_assoc(p: Self, q: Self, r: Self, pq: Self, pq_r: Self, qr: Self, p_qr: Self)
        requires
            N <= 16,
            p.in_range(),
            pq.is_compose_of(p, q),
            pq_r.is_compose_of(pq, r),
            qr.is_compose_of(q, r),
            p_qr.is_compose_of(p, qr),
        ensures
            pq_r == p_qr,
    {
        assert forall|i: int| 0 <= i < N implies pq_r.dest_of(i) == p_qr.dest_of(i) by {
            assert(p.dest_of(i) < N);
        }
        pq_r.lemma_ext(p_qr);
    }

    /// The identity is neutral on both sides of composition.
    pub proof fn law_compose_identity(p: Self, e: Self, pe: Self, ep: Self)
        requires
            N <= 16,
            p.in_range(),
            p.upper_clear(),
            e.is_identity(),
            pe.is_compose_of(p, e),
            ep.is_compose_of(e, p),
        ensures
            pe == p,
            ep == p,
    {
        assert forall|i: int| 0 <= i < N implies pe.dest_of(i) == p.dest_of(i) by {
            assert(p.dest_of(i) < N);
        }
        pe.lemma_ext(p);
        ep.lemma_ext(p);
    }

    /// A permutation followed by its inverse is the identity.
    pub proof fn lemma_compose_inverse_right(p: Self, inv: Self, p_inv: Self)
        requires
            N <= 16,
            p.valid(),
            inv.is_inverse_of(p),
            p_inv.is_compose_of(p, inv),
        ensures
            p_inv.is_identity(),
    {
    }

    /// The inverse of a permutation followed by the permutation is the identity.
    pub proof fn lemma_compose_inverse_left(p: Self, inv: Self, inv_p: Self)
        requires
            N <= 16,
            p.valid(),
            inv.is_inverse_of(p),
            inv_p.is_compose_of(inv, p),
        ensures
            inv_p.is_identity(),
    {
        assert forall|j: int| 0 <= j < N implies #[trigger] inv_p.dest_of(j) == j by {
            p.lemma_has_source(j);
            let i = choose|i: int| 0 <= i < N && p.dest_of(i) == j;
            assert(inv.dest_of(j) == i);
        }
    }

    /// A permutation composed with its inverse, in either order, is the identity.
    pub proof fn law_compose_inverse(p: Self, inv: Self, p_inv: Self, inv_p: Self)
        requires
            N <= 16,
            p.valid(),
            inv.is_inverse_of(p),
            p_inv.is_compose_of(p, inv),
            inv_p.is_compose_of(inv, p),
        ensures
            p_inv.is_identity(),
            inv_p.is_identity(),
    {
        Self::lemma_compose_inverse_right(p, inv, p_inv);
        Self::lemma_compose_inverse_left(p, inv, inv_p);
    }


    /// The set of destinations of the elements in `indices` (only its first `n` bits).
    pub open spec fn image_mask(self, indices: u16, n: int) -> u16
        decreases n,
    {
        if n <= 0 {
            0
        } else if bit(indices, n - 1) {
            self.image_mask(indices, n - 1) | ((1u16 << (self.dest_of(n - 1) as u16)) as u16)
        } else {
            self.image_mask(indices, n - 1)
        }
    }

    /// The destinations of the members of `indices`.
    pub open spec fn image_set(self, indices: u16) -> Set<int> {
        Set::new(|d: int| exists|i: int| 0 <= i < 16 && bit(indices, i) && self.dest_of(i) == d)
    }

    /// `indices` names elements of the permutation only.
    pub open spec fn indices_in_range(indices: u16) -> bool {
        forall|j: int| N <= j < 16 ==> !#[trigger] bit(indices, j)
    }

    /// The image of `indices`, with the image `indices` itself (every element staying
    /// in the set) exchanged with the set of the smallest elements, so that it ranks 0.
    pub open spec fn unordered_image(self, indices: u16) -> u16 {
        let img = self.image_mask(indices, 16);
        let z = low_mask(popcount(indices, 16));
        if img == indices {
            z
        } else if img == z {
            indices
        } else {
            img
        }
    }

    /// Index of this permutation among all permutations, considering only where the given
    /// indices are mapped to. The index of a permutation that keeps all indices in-place is 0.
    pub fn index_partial_unordered(&self, indices: u16) -> (r: usize)
        requires
            popcount(indices, 16) < 16,
            rank_fits(popcount(indices, 16)),
        ensures
            r == comb_rank(self.unordered_image(indices), 16),
            N <= 16 && self.valid() && Self::indices_in_range(indices) ==> {
                &&& r < binomial(N as nat, popcount(indices, 16))
                &&& (r == 0 <==> self.image_set(indices) == members(indices))
            },
    {
        proof {
            if N <= 16 && self.valid() && Self::indices_in_range(indices) {
                self.lemma_unordered_rank(indices);
            }
        }
        let ghost k = popcount(indices, 16);
        // Image of the permutation on these indices
        let mut img: u16 = 0;
        let mut cnt: u16 = 0;
        proof {
            lemma_popcount_zero(16);
        }
        let mut i: usize = 0;
        while i < 16
            invariant
                i <= 16,
                img == self.image_mask(indices, i as int),
                cnt == popcount(indices, i as int),
                cnt <= i,
                popcount(img, 16) <= cnt,
            decreases 16 - i,
        {
            if test_bit(indices, i as u16) {
                let d = self.dest(i);
                proof {
                    lemma_popcount_or(img, d as int, 16);
                }
                img = img | (1u16 << d as u16);
                cnt = cnt + 1;
            }
            i = i + 1;
        }
        // Special case: if the image keeps everything in place, the coordinate should be 0
        proof {
            lemma_popcount_bound(indices, 16);
            lemma_low_mask(cnt as nat, 0);
        }
        let z: u16 = (1u16 << cnt) - 1;
        proof {
            lemma_popcount_low_mask(cnt as nat, 16);
            lemma_popcount_bound(indices, 16);
        }
        if img == indices {
            img = z
        } else if img == z {
            img = indices;
        }
        assert(img == self.unordered_image(indices));
        assert(popcount(img, 16) <= k);
        let ghost k2: nat = if k < 15 {
            k
        } else {
            15
        };
        let ghost big = falling(15, k2);
        let mut ans: usize = 0;
        let mut pos: usize = 1;
        let mut j: usize = 0;
        while j < 16
            invariant
                j <= 16,
                k < 16,
                popcount(img, 16) <= k,
                rank_fits(k),
                k2 == (if k < 15 {
                    k
                } else {
                    15
                }),
                big == falling(15, k2),
                ans == comb_rank(img, j as int),
                pos == popcount(img, j as int) + 1,
                ans <= j * big,
            decreases 16 - j,
        {
            if test_bit(img, j as u16) {
                proof {
                    lemma_popcount_mono(img, j + 1, 16);
                    assert(pos <= k);
                    if pos <= j {
                        assert(pos <= k2);
                        lemma_falling_mono_n(j as nat, 15, pos as nat);
                        lemma_falling_mono(15, pos as nat, k2);
                        lemma_factorial_mono(pos as nat, k2);
                    }
                    lemma_binomial_le_falling(j as nat, pos as nat);
                    if pos <= j {
                        assert(binomial(j as nat, pos as nat) <= big);
                    } else {
                        assert(falling(j as nat, pos as nat) == 0);
                    }
                    assert(ans + binomial(j as nat, pos as nat) <= (j + 1) * big) by (nonlinear_arith)
                        requires
                            ans <= j * big,
                            binomial(j as nat, pos as nat) <= big,
                    ;
                    assert((j + 1) * big <= 16 * big) by (nonlinear_arith)
                        requires
                            j + 1 <= 16,
                            big >= 0,
                    ;
                }
                ans = ans + binom(j, pos);
                pos = pos + 1;
            } else {
                proof {
                    assert(j * big <= (j + 1) * big) by (nonlinear_arith)
                        requires
                            big >= 0,
                    ;
                }
            }
            j = j + 1;
        }
        ans
    }

    /// Overwrites where element `i` is sent.
    fn set_dest(&mut self, i: usize, dest: usize)
        requires
            i < N,
            dest < N,
            N <= 16,
        ensures
            forall|j: int|
                0 <= j < 16 ==> #[trigger] final(self).dest_of(j) == if j == i {
                    dest as int
                } else {
                    old(self).dest_of(j)
                },
    {
        let mask: u64 = u64::MAX - (0xfu64 << (i as u64 * 4));
        let ghost old_bits = self.0;
        self.0 = (self.0 & mask) | ((dest as u64) << (i as u64 * 4));
        proof {
            assert forall|j: int| 0 <= j < 16 implies #[trigger] nib(self.0, j) == if j == i {
                dest as int
            } else {
                nib(old_bits, j)
            } by {
                lemma_nib_set(old_bits, dest as u64, i as int, j);
            }
        }
    }

    /// ORs `dest` into the slot of element `i`.
    fn set_dest_nomask(&mut self, i: usize, dest: usize)
        requires
            i < N,
            dest < N,
            N <= 16,
        ensures
            forall|j: int|
                0 <= j < 16 && j != i ==> #[trigger] final(self).dest_of(j) == old(self).dest_of(j),
            final(self).dest_of(i as int) == ((old(self).dest_of(i as int) as u64) | (
            dest as u64)) as int,
            old(self).dest_of(i as int) == 0 ==> final(self).dest_of(i as int) == dest,
    {
        let ghost old_bits = self.0;
        self.0 = self.0 | ((dest as u64) << (i as u64 * 4));
        proof {
            assert forall|j: int| 0 <= j < 16 implies #[trigger] nib(self.0, j) == if j == i {
                (((old_bits >> ((4 * j) as u64)) & 0xfu64) | dest as u64) as int
            } else {
                nib(old_bits, j)
            } by {
                lemma_nib_or(old_bits, dest as u64, i as int, j);
            }
            let d = dest as u64;
            let x = (old_bits >> ((4 * i) as u64)) & 0xfu64;
            if nib(old_bits, i as int) == 0 {
                assert(x == 0);
                assert((0u64 | d) == d) by (bit_vector);
            }
        }
    }
}


/// The position after `k` in a cycle of length `n`.
proof fn lemma_next_index(k: int, n: int)
    requires
        0 <= k < n,
    ensures
        (k + 1) % n == if k + 1 < n {
            k + 1
        } else {
            0
        },
{
    if k + 1 < n {
        vstd::arithmetic::div_mod::lemma_small_mod((k + 1) as nat, n as nat);
    } else {
        vstd::arithmetic::div_mod::lemma_mod_self_0(n);
    }
}

/// `x` is one of the entries of `ind`.
pub open spec fn member(ind: Seq<usize>, x: int) -> bool {
    exists|t: int| 0 <= t < ind.len() && #[trigger] ind[t] == x
}

/// The entries of `ind` are below `n` and pairwise different.
pub open spec fn distinct_below(ind: Seq<usize>, n: int) -> bool {
    &&& forall|t: int| 0 <= t < ind.len() ==> #[trigger] ind[t] < n
    &&& forall|t: int, u: int|
        0 <= t < ind.len() && 0 <= u < ind.len() && t != u ==> #[trigger] ind[t] != #[trigger] ind[u]
}

/// Number of values below `x` that are entries of `ind`.
pub open spec fn count_members(ind: Seq<usize>, x: int) -> nat
    decreases x,
{
    if x <= 0 {
        0
    } else {
        count_members(ind, x - 1) + if member(ind, x - 1) {
            1nat
        } else {
            0nat
        }
    }
}

/// The label given to `x` when the entries of `ind` are renumbered `0..|ind|` in their order
/// and the other values `|ind|..` in increasing order.
pub open spec fn relabel_of(ind: Seq<usize>, x: int) -> int {
    if member(ind, x) {
        choose|t: int| 0 <= t < ind.len() && #[trigger] ind[t] == x
    } else {
        ind.len() + x - count_members(ind, x)
    }
}

proof fn lemma_count_members_step(ind: Seq<usize>, a: int, b: int)
    requires
        0 <= a <= b,
    ensures
        count_members(ind, a) <= count_members(ind, b),
        count_members(ind, b) - count_members(ind, a) <= b - a,
    decreases b - a,
{
    if a < b {
        lemma_count_members_step(ind, a, b - 1);
    }
}

proof fn lemma_count_members_drop_last(ind: Seq<usize>, x: int)
    requires
        ind.len() > 0,
        distinct_below(ind, 16),
        x >= 0,
    ensures
        count_members(ind, x) == count_members(ind.drop_last(), x) + if ind.last() < x {
            1int
        } else {
            0int
        },
    decreases x,
{
    let d = ind.drop_last();
    if x > 0 {
        lemma_count_members_drop_last(ind, x - 1);
        if member(ind, x - 1) {
            let t = choose|t: int| 0 <= t < ind.len() && #[trigger] ind[t] == x - 1;
            if t < ind.len() - 1 {
                assert(d[t] == x - 1);
                assert(ind[t] != ind[ind.len() - 1]);
            }
        }
        if member(d, x - 1) {
            let t = choose|t: int| 0 <= t < d.len() && #[trigger] d[t] == x - 1;
            assert(ind[t] == x - 1);
            assert(ind[t] != ind[ind.len() - 1]);
        }
        if ind.last() == x - 1 {
            assert(ind[ind.len() - 1] == x - 1);
        }
    }
}

/// `k` distinct values below `n` are exactly `k` of the values below `n`.
proof fn lemma_count_members_total(ind: Seq<usize>, n: int)
    requires
        0 <= n <= 16,
        distinct_below(ind, n),
    ensures
        count_members(ind, n) == ind.len(),
    decreases ind.len(),
{
    if ind.len() == 0 {
        lemma_count_members_none(ind, n);
    } else {
        let d = ind.drop_last();
        assert(ind[ind.len() - 1] < n);
        lemma_count_members_drop_last(ind, n);
        assert forall|t: int, u: int|
            0 <= t < d.len() && 0 <= u < d.len() && t != u implies #[trigger] d[t] != #[trigger] d[u] by {
            assert(ind[t] != ind[u]);
        }
        assert forall|t: int| 0 <= t < d.len() implies #[trigger] d[t] < n by {
            assert(ind[t] < n);
        }
        lemma_count_members_total(d, n);
    }
}

proof fn lemma_count_members_none(ind: Seq<usize>, x: int)
    requires
        ind.len() == 0,
    ensures
        count_members(ind, x) == 0,
    decreases x,
{
    if x > 0 {
        lemma_count_members_none(ind, x - 1);
    }
}

impl<const N: usize> Perm<N> {
    /// Renumbering of `0..N`: the given indices become `0..K` in their order, the other
    /// elements `K..N` in increasing order.
    fn relabel(&self, indices: &[usize]) -> (r: Vec<u8>)
        requires
            N <= 16,
            indices@.len() <= N,
            distinct_below(indices@, N as int),
        ensures
            r@.len() == N,
            forall|x: int| 0 <= x < N ==> #[trigger] r@[x] as int == relabel_of(indices@, x),
            forall|t: int| 0 <= t < indices@.len() ==> #[trigger] r@[indices@[t] as int] == t,
            forall|x: int| 0 <= x < N ==> #[trigger] r@[x] < N,
            forall|x: int, y: int| 0 <= x < N && 0 <= y < N && x != y ==> #[trigger] r@[x] != #[trigger] r@[y],
    {
        let ghost ind = indices@;
        let k = indices.len();
        let mut relabel: Vec<Option<u8>> = Vec::new();
        let mut x: usize = 0;
        while x < N
            invariant
                x <= N,
                relabel@.len() == x,
                forall|y: int| 0 <= y < x ==> relabel@[y] is None,
            decreases N - x,
        {
            relabel.push(None);
            x = x + 1;
        }
        let mut i: usize = 0;
        while i < k
            invariant
                N <= 16,
                k == ind.len(),
                k <= N,
                ind == indices@,
                distinct_below(ind, N as int),
                i <= k,
                relabel@.len() == N,
                forall|y: int|
                    0 <= y < N ==> (#[trigger] relabel@[y] is Some <==> exists|t: int|
                        0 <= t < i && #[trigger] ind[t] == y),
                forall|t: int| 0 <= t < i ==> #[trigger] relabel@[ind[t] as int] == Some(t as u8),
            decreases k - i,
        {
            let j = indices[i];
            proof {
                assert(ind[i as int] == j);
            }
            relabel.set(j, Some(i as u8));
            proof {
                assert forall|y: int|
                    0 <= y < N implies (#[trigger] relabel@[y] is Some <==> exists|t: int|
                        0 <= t < i + 1 && #[trigger] ind[t] == y) by {
                    if y == j {
                        assert(ind[i as int] == y);
                    } else if exists|t: int| 0 <= t < i + 1 && #[trigger] ind[t] == y {
                        let t = choose|t: int| 0 <= t < i + 1 && #[trigger] ind[t] == y;
                        assert(t != i);
                    }
                }
                assert forall|t: int| 0 <= t < i + 1 implies #[trigger] relabel@[ind[t] as int] == Some(
                    t as u8,
                ) by {
                    if t < i {
                        assert(ind[t] != ind[i as int]);
                    }
                }
            }
            i = i + 1;
        }
        let ghost r1 = relabel@;
        proof {
            assert forall|y: int| 0 <= y < N implies (#[trigger] r1[y] is Some <==> member(ind, y)) by {
                if r1[y] is Some {
                    let t = choose|t: int| 0 <= t < k && #[trigger] ind[t] == y;
                    assert(member(ind, y));
                }
                if member(ind, y) {
                    let t = choose|t: int| 0 <= t < ind.len() && #[trigger] ind[t] == y;
                }
            }
            lemma_count_members_total(ind, N as int);
        }
        let mut next: u8 = k as u8;
        let mut x: usize = 0;
        while x < N
            invariant
                N <= 16,
                k == ind.len(),
                k <= N,
                x <= N,
                relabel@.len() == N,
                next == k + x - count_members(ind, x as int),
                count_members(ind, N as int) == k,
                forall|y: int| 0 <= y < N ==> (#[trigger] r1[y] is Some <==> member(ind, y)),
                forall|y: int| x <= y < N ==> #[trigger] relabel@[y] == r1[y],
                forall|y: int|
                    0 <= y < x ==> #[trigger] relabel@[y] == if member(ind, y) {
                        r1[y]
                    } else {
                        Some((k + y - count_members(ind, y)) as u8)
                    },
            decreases N - x,
        {
            proof {
                lemma_count_members_step(ind, x as int, N as int);
                lemma_count_members_step(ind, 0, x as int);
            }
            if relabel[x].is_none() {
                proof {
                    lemma_count_members_step(ind, x as int + 1, N as int);
                    assert(count_members(ind, x as int + 1) == count_members(ind, x as int));
                }
                relabel.set(x, Some(next));
                next = next + 1;
            }
            x = x + 1;
        }
        let mut r: Vec<u8> = Vec::new();
        let mut x: usize = 0;
        while x < N
            invariant
                N <= 16,
                x <= N,
                r@.len() == x,
                relabel@.len() == N,
                forall|y: int| 0 <= y < N ==> #[trigger] relabel@[y] is Some,
                forall|y: int| 0 <= y < x ==> Some(#[trigger] r@[y]) == relabel@[y],
            decreases N - x,
        {
            match relabel[x] {
                Some(v) => r.push(v),
                None => r.push(0),
            }
            x = x + 1;
        }
        proof {
            assert forall|y: int| 0 <= y < N implies #[trigger] r@[y] as int == relabel_of(ind, y) by {
                assert(Some(r@[y]) == relabel@[y]);
                if member(ind, y) {
                    let t = choose|t: int| 0 <= t < ind.len() && #[trigger] ind[t] == y;
                    assert(r1[ind[t] as int] == Some(t as u8));
                    assert forall|u: int| 0 <= u < ind.len() && #[trigger] ind[u] == y implies u == t by {
                        if u != t {
                            assert(ind[u] != ind[t]);
                        }
                    }
                } else {
                    lemma_count_members_step(ind, 0, y);
                }
            }
            assert forall|t: int| 0 <= t < ind.len() implies #[trigger] r@[ind[t] as int] == t by {
                assert(ind[t] < N);
                assert(member(ind, ind[t] as int));
                assert(Some(r@[ind[t] as int]) == relabel@[ind[t] as int]);
            }
            assert forall|y: int| 0 <= y < N implies #[trigger] r@[y] < N by {
                assert(Some(r@[y]) == relabel@[y]);
                if member(ind, y) {
                    let t = choose|t: int| 0 <= t < ind.len() && #[trigger] ind[t] == y;
                    assert(r@[ind[t] as int] == t);
                } else {
                    lemma_count_members_step(ind, y + 1, N as int);
                    assert(count_members(ind, y + 1) == count_members(ind, y));
                }
            }
            assert forall|a: int, b: int| 0 <= a < N && 0 <= b < N && a != b implies #[trigger] r@[a]
                != #[trigger] r@[b] by {
                assert(Some(r@[a]) == relabel@[a]);
                assert(Some(r@[b]) == relabel@[b]);
                if member(ind, a) && member(ind, b) {
                    let t = choose|t: int| 0 <= t < ind.len() && #[trigger] ind[t] == a;
                    let u = choose|u: int| 0 <= u < ind.len() && #[trigger] ind[u] == b;
                    assert(r@[ind[t] as int] == t);
                    assert(r@[ind[u] as int] == u);
                } else if member(ind, a) {
                    let t = choose|t: int| 0 <= t < ind.len() && #[trigger] ind[t] == a;
                    assert(r@[ind[t] as int] == t);
                    lemma_count_members_step(ind, 0, b);
                } else if member(ind, b) {
                    let u = choose|u: int| 0 <= u < ind.len() && #[trigger] ind[u] == b;
                    assert(r@[ind[u] as int] == u);
                    lemma_count_members_step(ind, 0, a);
                } else if a < b {
                    lemma_count_members_step(ind, a + 1, b);
                    assert(count_members(ind, a + 1) == count_members(ind, a) + 0);
                } else {
                    lemma_count_members_step(ind, b + 1, a);
                    assert(count_members(ind, b + 1) == count_members(ind, b) + 0);
                }
            }
        }
        r
    }

    /// The permutation restricted to the given indices, renumbered `0..K` in their order.
    /// The indices must be closed under the permutation: none is sent outside of them.
    pub fn mask<const K: usize>(&self, indices: &[usize; K]) -> (r: Perm<K>)
        requires
            N <= 16,
            K <= N,
            self.valid(),
            distinct_below(indices@, N as int),
            forall|t: int| 0 <= t < K ==> member(indices@, #[trigger] self.dest_of(indices@[t] as int)),
        ensures
            r.valid(),
            r.upper_clear(),
            forall|t: int, u: int|
                0 <= t < K && 0 <= u < K && #[trigger] indices@[u] == #[trigger] self.dest_of(
                    indices@[t] as int,
                ) ==> r.dest_of(t) == u,
    {
        let ghost ind = indices@;
        let relabel = self.relabel(indices);
        let mut ret = Perm::<K>(0);
        proof {
            Perm::<K>::lemma_zero();
        }
        let mut i: usize = 0;
        while i < K
            invariant
                N <= 16,
                K <= N,
                i <= K,
                ind == indices@,
                self.valid(),
                distinct_below(ind, N as int),
                forall|t: int| 0 <= t < K ==> member(ind, #[trigger] self.dest_of(ind[t] as int)),
                relabel@.len() == N,
                forall|t: int| 0 <= t < K ==> #[trigger] relabel@[ind[t] as int] == t,
                forall|k: int|
                    0 <= k < 16 ==> #[trigger] ret.dest_of(k) == if k < i {
                        relabel@[self.dest_of(ind[k] as int)] as int
                    } else {
                        0
                    },
            decreases K - i,
        {
            let j = indices[i];
            let d = self.dest(j);
            proof {
                assert(ind[i as int] == j);
                assert(j < N);
                assert(self.dest_of(j as int) < N);
                assert(member(ind, self.dest_of(ind[i as int] as int)));
                let u = choose|u: int| 0 <= u < ind.len() && #[trigger] ind[u] == d;
                assert(relabel@[ind[u] as int] == u);
                lemma_nib_zero(i as int);
            }
            let a = relabel[j] as usize;
            let b = relabel[d] as usize;
            ret.set_dest_nomask(a, b);
            i = i + 1;
        }
        proof {
            assert forall|t: int, u: int|
                0 <= t < K && 0 <= u < K && #[trigger] ind[u] == #[trigger] self.dest_of(
                    ind[t] as int,
                ) implies ret.dest_of(t) == u by {
                assert(relabel@[ind[u] as int] == u);
            }
            assert forall|t: int| 0 <= t < K implies #[trigger] ret.dest_of(t) < K by {
                assert(member(ind, self.dest_of(ind[t] as int)));
                let u = choose|u: int| 0 <= u < ind.len() && #[trigger] ind[u] == self.dest_of(ind[t] as int);
                assert(relabel@[ind[u] as int] == u);
            }
            assert forall|t: int, u: int| 0 <= t < K && 0 <= u < K && t != u implies #[trigger] ret.dest_of(t)
                != #[trigger] ret.dest_of(u) by {
                assert(member(ind, self.dest_of(ind[t] as int)));
                assert(member(ind, self.dest_of(ind[u] as int)));
                let a = choose|a: int| 0 <= a < ind.len() && #[trigger] ind[a] == self.dest_of(ind[t] as int);
                let b = choose|b: int| 0 <= b < ind.len() && #[trigger] ind[b] == self.dest_of(ind[u] as int);
                assert(relabel@[ind[a] as int] == a);
                assert(relabel@[ind[b] as int] == b);
                assert(ind[t] != ind[u]);
                assert(self.dest_of(ind[t] as int) != self.dest_of(ind[u] as int));
            }
        }
        ret
    }
}

impl<const N: usize> Perm<N> {
    /// `c` is a cycle of the permutation of length at least 2: distinct elements, each sent
    /// to the next and the last to the first.
    pub open spec fn is_cycle(self, c: Seq<usize>) -> bool {
        &&& c.len() >= 2
        &&& forall|k: int| 0 <= k < c.len() ==> #[trigger] c[k] < N
        &&& forall|a: int, b: int| 0 <= a < c.len() && 0 <= b < c.len() && a != b ==> #[trigger] c[a] != #[trigger] c[b]
        &&& forall|k: int| 0 <= k < c.len() - 1 ==> #[trigger] self.dest_of(c[k] as int) == c[k + 1]
        &&& self.dest_of(c[c.len() - 1] as int) == c[0]
    }

    /// Disjoint cycles of the permutation which have length at least 2.
    pub fn cycles(&self) -> (r: Vec<Vec<usize>>)
        requires
            N <= 16,
            self.valid(),
        ensures
            forall|k: int| 0 <= k < r@.len() ==> self.is_cycle(#[trigger] r@[k]@),
            forall|k: int, l: int, a: int, b: int|
                0 <= k < r@.len() && 0 <= l < r@.len() && k != l && 0 <= a < r@[k]@.len() && 0 <= b
                    < r@[l]@.len() ==> #[trigger] r@[k]@[a] != #[trigger] r@[l]@[b],
            forall|x: int|
                0 <= x < N && self.dest_of(x) != x ==> exists|k: int, a: int|
                    0 <= k < r@.len() && 0 <= a < r@[k]@.len() && #[trigger] r@[k]@[a] == x,
            forall|k: int, a: int|
                0 <= k < r@.len() && 0 <= a < r@[k]@.len() ==> r@[k]@[0] <= #[trigger] r@[k]@[a],
            forall|k: int, l: int| 0 <= k < l < r@.len() ==> #[trigger] r@[k]@[0] < #[trigger] r@[l]@[0],
    {
        let mut vis: Vec<bool> = Vec::new();
        let mut k: usize = 0;
        while k < N
            invariant
                k <= N,
                vis@.len() == k,
                forall|x: int| 0 <= x < k ==> !#[trigger] vis@[x],
            decreases N - k,
        {
            vis.push(false);
            k = k + 1;
        }
        let mut ret: Vec<Vec<usize>> = Vec::new();
        let mut i: usize = 0;
        while i < N
            invariant
                N <= 16,
                self.valid(),
                i <= N,
                vis@.len() == N,
                forall|k: int| 0 <= k < ret@.len() ==> self.is_cycle(#[trigger] ret@[k]@),
                forall|k: int, l: int, a: int, b: int|
                    0 <= k < ret@.len() && 0 <= l < ret@.len() && k != l && 0 <= a < ret@[k]@.len()
                        && 0 <= b < ret@[l]@.len() ==> #[trigger] ret@[k]@[a] != #[trigger] ret@[l]@[b],
                forall|x: int|
                    0 <= x < N ==> (#[trigger] vis@[x] <==> (self.in_cycles(ret@, x) || (
                    self.dest_of(x) == x && x < i))),
                forall|x: int| 0 <= x < i ==> #[trigger] vis@[x],
                forall|k: int, a: int|
                    0 <= k < ret@.len() && 0 <= a < ret@[k]@.len() ==> ret@[k]@[0] <= #[trigger] ret@[k]@[a],
                forall|k: int, l: int| 0 <= k < l < ret@.len() ==> #[trigger] ret@[k]@[0] < #[trigger] ret@[l]@[0],
                forall|k: int| 0 <= k < ret@.len() ==> #[trigger] ret@[k]@[0] < i,
            decreases N - i,
        {
            if vis[i] {
                i = i + 1;
                continue;
            }
            let ghost vis0 = vis@;
            vis.set(i, true);
            let mut cur: Vec<usize> = Vec::new();
            cur.push(i);
            proof {
                assert forall|x: int|
                    0 <= x < N implies (#[trigger] vis@[x] <==> (self.in_cycles(ret@, x) || (
                    self.dest_of(x) == x && x < i) || member(cur@, x))) by {
                    if x == i {
                        assert(cur@[0] == i);
                    } else {
                        assert(vis@[x] == vis0[x]);
                        if member(cur@, x) {
                            let u = choose|u: int| 0 <= u < cur@.len() && #[trigger] cur@[u] == x;
                            assert(u == 0);
                        }
                    }
                }
            }
            let mut j = self.dest(i);
            while j != i
                invariant
                    N <= 16,
                    self.valid(),
                    i < N,
                    vis@.len() == N,
                    cur@.len() >= 1,
                    cur@[0] == i,
                    distinct_below(cur@, N as int),
                    forall|k: int| 0 <= k < cur@.len() - 1 ==> #[trigger] self.dest_of(cur@[k] as int) == cur@[k + 1],
                    j == self.dest_of(cur@[cur@.len() - 1] as int),
                    forall|a: int| 0 <= a < cur@.len() ==> !self.in_cycles(ret@, #[trigger] cur@[a] as int),
                    forall|x: int|
                        0 <= x < N ==> (#[trigger] vis@[x] <==> (self.in_cycles(ret@, x) || (
                        self.dest_of(x) == x && x < i) || member(cur@, x))),
                    forall|k: int| 0 <= k < ret@.len() ==> self.is_cycle(#[trigger] ret@[k]@),
                    forall|x: int| 0 <= x < i ==> #[trigger] vis@[x],
                    cur@.len() <= N,
                    forall|a: int| 0 <= a < cur@.len() ==> #[trigger] cur@[a] >= i,
                    forall|k: int, a: int|
                        0 <= k < ret@.len() && 0 <= a < ret@[k]@.len() ==> ret@[k]@[0] <= #[trigger] ret@[k]@[a],
                    forall|k: int, l: int| 0 <= k < l < ret@.len() ==> #[trigger] ret@[k]@[0] < #[trigger] ret@[l]@[0],
                    forall|k: int| 0 <= k < ret@.len() ==> #[trigger] ret@[k]@[0] < i,
                decreases N - cur@.len(),
            {
                proof {
                    self.lemma_cycle_step(ret@, cur@, j as int);
                    lemma_count_members_total(cur@, N as int);
                    lemma_count_members_step(cur@, 0, N as int);
                    if j < i {
                        assert(vis@[j as int]);
                        let last = cur@[cur@.len() - 1];
                        assert(last != j) by {
                            if last == j {
                                assert(member(cur@, j as int));
                            }
                        }
                        assert(self.dest_of(j as int) != j) by {
                            assert(last < N);
                            assert(self.dest_of(last as int) != self.dest_of(j as int));
                        }
                    }
                }
                vis.set(j, true);
                let ghost old_cur = cur@;
                cur.push(j);
                proof {
                    assert forall|a: int, b: int|
                        0 <= a < cur@.len() && 0 <= b < cur@.len() && a != b implies #[trigger] cur@[a]
                        != #[trigger] cur@[b] by {
                        if a < old_cur.len() && b < old_cur.len() {
                            assert(old_cur[a] != old_cur[b]);
                        } else if a < old_cur.len() {
                            assert(old_cur[a] != j);
                        } else {
                            assert(old_cur[b] != j);
                        }
                    }
                    assert forall|a: int| 0 <= a < cur@.len() implies #[trigger] cur@[a] < N by {
                        if a < old_cur.len() {
                            assert(old_cur[a] < N);
                        }
                    }
                    lemma_count_members_total(cur@, N as int);
                    lemma_count_members_step(cur@, 0, N as int);
                    assert forall|x: int| 0 <= x < N implies (#[trigger] vis@[x] <==> (self.in_cycles(
                        ret@,
                        x,
                    ) || (self.dest_of(x) == x && x < i) || member(cur@, x))) by {
                        if member(old_cur, x) {
                            let t = choose|t: int| 0 <= t < old_cur.len() && #[trigger] old_cur[t] == x;
                            assert(cur@[t] == x);
                        }
                        if member(cur@, x) && x != j {
                            let t = choose|t: int| 0 <= t < cur@.len() && #[trigger] cur@[t] == x;
                            assert(old_cur[t] == x);
                        }
                        if x == j {
                            assert(cur@[cur@.len() - 1] == x);
                        }
                    }
                }
                j = self.dest(j);
            }
            proof {
                assert(self.dest_of(i as int) < N);
            }
            if cur.len() >= 2 {
                let ghost old_ret = ret@;
                ret.push(cur);
                proof {
                    self.lemma_cycles_push(old_ret, ret@, i as int);
                    assert forall|x: int|
                        0 <= x < N implies (#[trigger] vis@[x] <==> (self.in_cycles(ret@, x) || (
                        self.dest_of(x) == x && x < i + 1))) by {
                        self.lemma_in_cycles_push(old_ret, ret@, x);
                        if x == i {
                            assert(member(ret@[old_ret.len() as int]@, x)) by {
                                assert(ret@[old_ret.len() as int]@[0] == x);
                            }
                        }
                    }
                }
            } else {
                proof {
                    assert forall|x: int|
                        0 <= x < N implies (#[trigger] vis@[x] <==> (self.in_cycles(ret@, x) || (
                        self.dest_of(x) == x && x < i + 1))) by {
                        if member(cur@, x) {
                            let t = choose|t: int| 0 <= t < cur@.len() && #[trigger] cur@[t] == x;
                            assert(t == 0);
                        }
                        if x == i {
                            assert(cur@[0] == x);
                        }
                    }
                }
            }
            i = i + 1;
        }
        proof {
            assert forall|x: int| 0 <= x < N && self.dest_of(x) != x implies exists|k: int, a: int|
                0 <= k < ret@.len() && 0 <= a < ret@[k]@.len() && #[trigger] ret@[k]@[a] == x by {
                assert(vis@[x]);
                let k = choose|k: int| 0 <= k < ret@.len() && #[trigger] member(ret@[k]@, x);
                let a = choose|a: int| 0 <= a < ret@[k]@.len() && #[trigger] ret@[k]@[a] == x;
            }
        }
        ret
    }

    /// `x` is an element of one of the cycles `cs`.
    pub open spec fn in_cycles(self, cs: Seq<Vec<usize>>, x: int) -> bool {
        exists|k: int| 0 <= k < cs.len() && #[trigger] member(cs[k]@, x)
    }

    /// Following the permutation from the partial cycle `cur` gives either its first element
    /// or a new element outside the cycles found so far.
    proof fn lemma_cycle_step(self, cs: Seq<Vec<usize>>, cur: Seq<usize>, j: int)
        requires
            N <= 16,
            self.valid(),
            cur.len() >= 1,
            distinct_below(cur, N as int),
            forall|k: int| 0 <= k < cur.len() - 1 ==> #[trigger] self.dest_of(cur[k] as int) == cur[k + 1],
            j == self.dest_of(cur[cur.len() - 1] as int),
            j != cur[0],
            forall|k: int| 0 <= k < cs.len() ==> self.is_cycle(#[trigger] cs[k]@),
            forall|a: int| 0 <= a < cur.len() ==> !self.in_cycles(cs, #[trigger] cur[a] as int),
        ensures
            0 <= j < N,
            !member(cur, j),
            !self.in_cycles(cs, j),
    {
        let last = cur[cur.len() - 1];
        assert(last < N);
        if member(cur, j) {
            let a = choose|a: int| 0 <= a < cur.len() && #[trigger] cur[a] == j;
            assert(a != 0);
            assert(self.dest_of(cur[a - 1] as int) == j);
            assert(cur[a - 1] < N);
            assert(cur[a - 1] == last);
        }
        if self.in_cycles(cs, j) {
            let k = choose|k: int| 0 <= k < cs.len() && #[trigger] member(cs[k]@, j);
            let c = cs[k]@;
            assert(self.is_cycle(c));
            let a = choose|a: int| 0 <= a < c.len() && #[trigger] c[a] == j;
            let p = if a == 0 {
                c.len() - 1
            } else {
                a - 1
            };
            assert(self.dest_of(c[p] as int) == j);
            assert(c[p] < N);
            assert(c[p] == last);
            assert(member(c, last as int));
            assert(self.in_cycles(cs, last as int));
            assert(!self.in_cycles(cs, cur[cur.len() - 1] as int));
        }
    }

    proof fn lemma_in_cycles_push(self, cs: Seq<Vec<usize>>, cs2: Seq<Vec<usize>>, x: int)
        requires
            cs2.len() == cs.len() + 1,
            forall|k: int| 0 <= k < cs.len() ==> #[trigger] cs2[k] == cs[k],
        ensures
            self.in_cycles(cs2, x) <==> (self.in_cycles(cs, x) || member(cs2[cs.len() as int]@, x)),
    {
        if self.in_cycles(cs2, x) {
            let k = choose|k: int| 0 <= k < cs2.len() && #[trigger] member(cs2[k]@, x);
            if k < cs.len() {
                assert(member(cs[k]@, x));
            }
        }
        if self.in_cycles(cs, x) {
            let k = choose|k: int| 0 <= k < cs.len() && #[trigger] member(cs[k]@, x);
            assert(member(cs2[k]@, x));
        }
        if member(cs2[cs.len() as int]@, x) {
            assert(0 <= cs.len() < cs2.len());
        }
    }

    proof fn lemma_cycles_push(self, cs: Seq<Vec<usize>>, cs2: Seq<Vec<usize>>, i: int)
        requires
            cs2.len() == cs.len() + 1,
            forall|k: int| 0 <= k < cs.len() ==> #[trigger] cs2[k] == cs[k],
            forall|k: int| 0 <= k < cs.len() ==> self.is_cycle(#[trigger] cs[k]@),
            forall|k: int, l: int, a: int, b: int|
                0 <= k < cs.len() && 0 <= l < cs.len() && k != l && 0 <= a < cs[k]@.len() && 0 <= b
                    < cs[l]@.len() ==> #[trigger] cs[k]@[a] != #[trigger] cs[l]@[b],
            ({
                let c = cs2[cs.len() as int]@;
                &&& c.len() >= 2
                &&& c[0] == i
                &&& distinct_below(c, N as int)
                &&& forall|k: int| 0 <= k < c.len() - 1 ==> #[trigger] self.dest_of(c[k] as int) == c[k + 1]
                &&& self.dest_of(c[c.len() - 1] as int) == i
                &&& forall|a: int| 0 <= a < c.len() ==> !self.in_cycles(cs, #[trigger] c[a] as int)
            }),
        ensures
            forall|k: int| 0 <= k < cs2.len() ==> self.is_cycle(#[trigger] cs2[k]@),
            forall|k: int, l: int, a: int, b: int|
                0 <= k < cs2.len() && 0 <= l < cs2.len() && k != l && 0 <= a < cs2[k]@.len() && 0 <= b
                    < cs2[l]@.len() ==> #[trigger] cs2[k]@[a] != #[trigger] cs2[l]@[b],
    {
        let n = cs.len() as int;
        let c = cs2[n]@;
        assert forall|k: int| 0 <= k < cs2.len() implies self.is_cycle(#[trigger] cs2[k]@) by {
            if k < n {
                assert(cs2[k] == cs[k]);
            }
        }
        assert forall|k: int, l: int, a: int, b: int|
            0 <= k < cs2.len() && 0 <= l < cs2.len() && k != l && 0 <= a < cs2[k]@.len() && 0 <= b
                < cs2[l]@.len() implies #[trigger] cs2[k]@[a] != #[trigger] cs2[l]@[b] by {
            if k < n && l < n {
                assert(cs2[k] == cs[k]);
                assert(cs2[l] == cs[l]);
            } else if k == n {
                assert(cs2[l] == cs[l]);
                if c[a] == cs[l]@[b] {
                    assert(member(cs[l]@, c[a] as int));
                    assert(self.in_cycles(cs, c[a] as int));
                }
            } else {
                assert(cs2[k] == cs[k]);
                if c[b] == cs[k]@[a] {
                    assert(member(cs[k]@, c[b] as int));
                    assert(self.in_cycles(cs, c[b] as int));
                }
            }
        }
    }
}

/// `sum_{i < m} lehmer_digit(s, i) * falling(n - 1 - i, k - 1 - i)`: the rank of the ordered
/// selection `s` of `k` values out of `0..n`, counting its first `m` entries.
pub open spec fn selection_sum(s: Seq<int>, n: int, k: int, m: int) -> nat
    decreases m,
{
    if m <= 0 {
        0
    } else {
        selection_sum(s, n, k, m - 1) + lehmer_digit(s, m - 1) * falling((n - m) as nat, (k - m) as nat)
    }
}

/// `falling(a + 1, b + 1) == (a + 1) * falling(a, b)`
proof fn lemma_falling_shift(a: nat, b: nat)
    requires
        b <= a,
    ensures
        falling(a + 1, b + 1) == (a + 1) * falling(a, b),
    decreases b,
{
    if b > 0 {
        lemma_falling_shift(a, (b - 1) as nat);
        let f: int = falling(a, (b - 1) as nat) as int;
        let x: int = a as int + 1;
        let y: int = a + 1 - b;
        let g: int = falling(a + 1, b) as int;
        let lhs: int = falling(a + 1, b + 1) as int;
        let fab: int = falling(a, b) as int;
        assert(lhs == g * y);
        assert(fab == f * y);
        assert(g == x * f);
        assert(lhs == x * fab) by (nonlinear_arith)
            requires
                lhs == g * y,
                fab == f * y,
                g == x * f,
        ;
        assert(falling(a + 1, b + 1) == (a + 1) * falling(a, b));
    } else {
        assert(falling(a + 1, 1) == falling(a + 1, 0) * (a + 1));
        assert(falling(a, 0) == 1);
        assert(falling(a + 1, 0) == 1);
        assert(b == 0);
        assert(falling(a, b) == 1);
        assert(falling(a + 1, 1) == a + 1) by (nonlinear_arith)
            requires
                falling(a + 1, 1) == falling(a + 1, 0) * (a + 1),
                falling(a + 1, 0) == 1,
        ;
        assert(falling(a + 1, b + 1) == a + 1);
        assert((a + 1) * falling(a, b) == a + 1) by (nonlinear_arith)
            requires
                falling(a, b) == 1,
        ;
    }
}

/// The rank of an ordered selection, with the selections of the remaining entries still to
/// come, stays within the number of selections.
proof fn lemma_selection_bound(s: Seq<int>, n: int, k: int, m: int)
    requires
        0 <= m <= k <= n,
        s.len() == k,
        forall|t: int| 0 <= t < s.len() ==> 0 <= #[trigger] s[t] < n,
        forall|a: int, b: int| 0 <= a < s.len() && 0 <= b < s.len() && a != b ==> s[a] != s[b],
    ensures
        selection_sum(s, n, k, m) + falling((n - m) as nat, (k - m) as nat) <= falling(n as nat, k as nat),
    decreases m,
{
    if m > 0 {
        lemma_selection_bound(s, n, k, m - 1);
        lemma_lehmer_digit_bound_in(s, m - 1, n);
        lemma_falling_shift((n - m) as nat, (k - m) as nat);
        let d = lehmer_digit(s, m - 1);
        let w = falling((n - m) as nat, (k - m) as nat);
        assert(d * w + w <= (n - m + 1) * w) by (nonlinear_arith)
            requires
                d <= n - m,
                w >= 0,
        ;
    }
}

impl<const N: usize> Perm<N> {
    /// Where the given indices are sent, renumbered by `relabel_of`.
    pub open spec fn partial_image(self, ind: Seq<usize>) -> Seq<int> {
        Seq::new(ind.len(), |i: int| relabel_of(ind, self.dest_of(ind[i] as int)))
    }

    /// Index of the transformation on the K given indices, some integer in
    /// [0, Perm(N, K)). The index of a permutation which leaves all K given indices
    /// in-place is 0.
    pub fn index_partial(&self, indices: &[usize]) -> (r: usize)
        requires
            N <= 16,
            self.valid(),
            indices@.len() <= N,
            distinct_below(indices@, N as int),
            falling(N as nat, indices@.len() as nat) <= usize::MAX,
        ensures
            r == selection_sum(self.partial_image(indices@), N as int, indices@.len() as int, indices@.len() as int),
            r < falling(N as nat, indices@.len() as nat),
    {
        let ghost ind = indices@;
        let ghost img = self.partial_image(ind);
        let relabel = self.relabel(indices);
        let k = indices.len();
        proof {
            assert forall|t: int| 0 <= t < k implies 0 <= #[trigger] img[t] < N by {
                assert(ind[t] < N);
                assert(self.dest_of(ind[t] as int) < N);
                assert(relabel@[self.dest_of(ind[t] as int)] as int == img[t]);
            }
            assert forall|a: int, b: int| 0 <= a < k && 0 <= b < k && a != b implies img[a] != img[b] by {
                assert(ind[a] < N && ind[b] < N);
                assert(ind[a] != ind[b]);
                assert(self.dest_of(ind[a] as int) != self.dest_of(ind[b] as int));
                assert(relabel@[self.dest_of(ind[a] as int)] as int == img[a]);
                assert(relabel@[self.dest_of(ind[b] as int)] as int == img[b]);
            }
            lemma_selection_bound(img, N as int, k as int, k as int);
        }
        let mut used: Vec<bool> = Vec::new();
        let mut v: usize = 0;
        while v < N
            invariant
                v <= N,
                used@.len() == v,
                forall|w: int| 0 <= w < v ==> !#[trigger] used@[w],
            decreases N - v,
        {
            used.push(false);
            v = v + 1;
        }
        let mut ans: usize = 0;
        let mut i: usize = 0;
        while i < k
            invariant
                N <= 16,
                self.valid(),
                k == ind.len(),
                k <= N,
                ind == indices@,
                img == self.partial_image(ind),
                distinct_below(ind, N as int),
                falling(N as nat, k as nat) <= usize::MAX,
                relabel@.len() == N,
                forall|x: int| 0 <= x < N ==> #[trigger] relabel@[x] as int == relabel_of(ind, x),
                forall|t: int| 0 <= t < k ==> 0 <= #[trigger] img[t] < N,
                forall|a: int, b: int| 0 <= a < k && 0 <= b < k && a != b ==> img[a] != img[b],
                i <= k,
                used@.len() == N,
                forall|w: int| 0 <= w < N ==> (seen_odd(img, i as int, w) <==> #[trigger] used@[w]),
                ans == selection_sum(img, N as int, k as int, i as int),
            decreases k - i,
        {
            let j = indices[i];
            proof {
                assert(ind[i as int] == j);
                assert(j < N);
            }
            let d = self.dest(j);
            let x = relabel[d] as usize;
            proof {
                assert(x as int == img[i as int]);
            }
            let mut ord: usize = 0;
            let mut y: usize = 0;
            while y < x
                invariant
                    y <= x,
                    x < N,
                    used@.len() == N,
                    ord == count_unused(used@, y as int),
                    ord <= y,
                decreases x - y,
            {
                if !used[y] {
                    ord = ord + 1;
                }
                y = y + 1;
            }
            proof {
                lemma_unseen_is_unused(img, i as int, used@, x as int);
                lemma_selection_bound(img, N as int, k as int, i + 1);
                let w = falling((N - (i + 1)) as nat, (k - (i + 1)) as nat);
                assert(ord * w <= selection_sum(img, N as int, k as int, i + 1));
            }
            let p = perm(N - 1 - i, k - 1 - i);
            ans = ans + ord * p;
            let ghost old_used = used@;
            used.set(x, true);
            proof {
                lemma_seen_odd_distinct(img, i as int, img[i as int]);
                if exists|t: int| #![trigger img[t]] 0 <= t < i && img[t] == img[i as int] {
                    let t = choose|t: int| #![trigger img[t]] 0 <= t < i && img[t] == img[i as int];
                    assert(img[t] != img[i as int]);
                }
                assert forall|w: int| 0 <= w < N implies (seen_odd(img, i + 1, w) <==> #[trigger] used@[w]) by {
                    if w != x {
                        assert(used@[w] == old_used[w]);
                    }
                }
            }
            i = i + 1;
        }
        proof {
            assert(falling(0, 0) == 1);
            assert(falling((N - k) as nat, 0) == 1);
        }
        ans
    }

    /// The element that a valid permutation sends to `j`.
    pub open spec fn source_of(self, j: int) -> int {
        choose|i: int| 0 <= i < N && self.dest_of(i) == j
    }

    /// `s` with the element at `i` moved to `self.dest(i)`.
    pub open spec fn transformed<T>(self, s: Seq<T>) -> Seq<T> {
        Seq::new(N as nat, |j: int| s[self.source_of(j)])
    }

    /// Permute the array using `self`: the element at `i` is moved to `self.dest(i)`.
    pub fn transform<T: Clone>(&self, a: &[T; N]) -> (r: Vec<T>)
        requires
            N <= 16,
            self.valid(),
        ensures
            r@.len() == N,
            forall|i: int| 0 <= i < N ==> cloned::<T>(a@[i], #[trigger] r@[self.dest_of(i)]),
            forall|j: int| 0 <= j < N ==> cloned::<T>(self.transformed(a@)[j], #[trigger] r@[j]),
    {
        let mut r: Vec<T> = Vec::new();
        let mut j: usize = 0;
        while j < N
            invariant
                N <= 16,
                self.valid(),
                j <= N,
                r@.len() == j,
                forall|i: int| 0 <= i < N && self.dest_of(i) < j ==> cloned::<T>(a@[i], #[trigger] r@[self.dest_of(i)]),
            decreases N - j,
        {
            proof {
                self.lemma_has_source(j as int);
            }
            let i = self.source(j);
            let x = a[i].clone();
            let ghost old_r = r@;
            r.push(x);
            proof {
                assert forall|k: int| 0 <= k < N && self.dest_of(k) < j + 1 implies cloned::<T>(a@[k], #[trigger] r@[self.dest_of(k)]) by {
                    if self.dest_of(k) == j {
                        if k != i {
                            assert(self.dest_of(k) != self.dest_of(i as int));
                        }
                    } else {
                        assert(r@[self.dest_of(k)] == old_r[self.dest_of(k)]);
                    }
                }
            }
            j = j + 1;
        }
        proof {
            assert forall|i: int| 0 <= i < N implies cloned::<T>(a@[i], #[trigger] r@[self.dest_of(i)]) by {
                assert(self.dest_of(i) < N);
            }
            assert forall|j: int| 0 <= j < N implies cloned::<T>(self.transformed(a@)[j], #[trigger] r@[j]) by {
                self.lemma_source_of(j);
                assert(r@[self.dest_of(self.source_of(j))] == r@[j]);
            }
        }
        r
    }

    /// The source of `j` is an element sent to `j`.
    pub proof fn lemma_source_of(self, j: int)
        requires
            self.valid(),
            0 <= j < N,
        ensures
            0 <= self.source_of(j) < N,
            self.dest_of(self.source_of(j)) == j,
    {
        self.lemma_has_source(j);
    }

    /// Transforming by `p` and then by `q` is transforming by `p` followed by `q`.
    pub proof fn law_transform_compose<T>(p: Self, q: Self, pq: Self, s: Seq<T>)
        requires
            N <= 16,
            p.valid(),
            q.valid(),
            pq.is_compose_of(p, q),
            s.len() == N,
        ensures
            q.transformed(p.transformed(s)) == pq.transformed(s),
    {
        Self::law_compose_valid(pq, p, q);
        assert forall|j: int| 0 <= j < N implies #[trigger] q.transformed(p.transformed(s))[j]
            == pq.transformed(s)[j] by {
            q.lemma_source_of(j);
            let a = q.source_of(j);
            p.lemma_source_of(a);
            let b = p.source_of(a);
            pq.lemma_source_of(j);
            let c = pq.source_of(j);
            assert(pq.dest_of(b) == j);
            if b != c {
                assert(pq.dest_of(b) != pq.dest_of(c));
            }
        }
        assert(q.transformed(p.transformed(s)) =~= pq.transformed(s));
    }
}

/// In a sequence that starts `0, 1, ..., m - 1`, the first `m` Lehmer digits are 0.
proof fn lemma_prefix_identity_digits(s: Seq<int>, m: int, i: int)
    requires
        0 <= i < m <= s.len(),
        forall|t: int| 0 <= t < m ==> #[trigger] s[t] == t,
    ensures
        lehmer_digit(s, i) == 0,
{
    assert forall|a: int, b: int| 0 <= a < i && 0 <= b < i && a != b implies s[a] != s[b] by {
        assert(s[a] == a && s[b] == b);
    }
    lemma_unseen_prefix_zero(s, i, i);
}

proof fn lemma_unseen_prefix_zero(s: Seq<int>, i: int, v: int)
    requires
        0 <= v <= i <= s.len(),
        forall|t: int| 0 <= t < i ==> #[trigger] s[t] == t,
        forall|a: int, b: int| 0 <= a < i && 0 <= b < i && a != b ==> s[a] != s[b],
    ensures
        unseen_below(s, i, v) == 0,
    decreases v,
{
    if v > 0 {
        lemma_unseen_prefix_zero(s, i, v - 1);
        lemma_seen_odd_distinct(s, i, v - 1);
        assert(s[v - 1] == v - 1);
    }
}

proof fn lemma_lehmer_sum_zero(s: Seq<int>, m: int)
    requires
        0 <= m <= s.len(),
        forall|t: int| 0 <= t < m ==> #[trigger] s[t] == t,
    ensures
        lehmer_sum(s, m) == 0,
    decreases m,
{
    if m > 0 {
        lemma_lehmer_sum_zero(s, m - 1);
        lemma_prefix_identity_digits(s, m, m - 1);
    }
}

proof fn lemma_selection_sum_zero(s: Seq<int>, n: int, k: int, m: int)
    requires
        0 <= m <= s.len(),
        forall|t: int| 0 <= t < m ==> #[trigger] s[t] == t,
    ensures
        selection_sum(s, n, k, m) == 0,
    decreases m,
{
    if m > 0 {
        lemma_selection_sum_zero(s, n, k, m - 1);
        lemma_prefix_identity_digits(s, m, m - 1);
    }
}

/// The members of the image of `ind` under a permutation are the destinations of its
/// members.
proof fn lemma_image_mask_bits<const N: usize>(p: Perm<N>, ind: u16, n: int, d: int)
    requires
        0 <= n <= 16,
        0 <= d < 16,
    ensures
        bit(p.image_mask(ind, n), d) <==> exists|i: int| 0 <= i < n && bit(ind, i) && #[trigger] p.dest_of(i) == d,
    decreases n,
{
    if n == 0 {
        crate::bitset::lemma_bit_zero(d);
    } else {
        lemma_image_mask_bits(p, ind, n - 1, d);
        let prev = p.image_mask(ind, n - 1);
        if bit(ind, n - 1) {
            lemma_nib_bound(p.bits(), n - 1);
            lemma_bit_or(prev, 1, p.dest_of(n - 1), d);
        }
        if exists|i: int| 0 <= i < n && bit(ind, i) && #[trigger] p.dest_of(i) == d {
            let i = choose|i: int| 0 <= i < n && bit(ind, i) && #[trigger] p.dest_of(i) == d;
            if i < n - 1 {
                assert(0 <= i < n - 1 && bit(ind, i) && p.dest_of(i) == d);
            }
        }
        if exists|i: int| 0 <= i < n - 1 && bit(ind, i) && #[trigger] p.dest_of(i) == d {
            let i = choose|i: int| 0 <= i < n - 1 && bit(ind, i) && #[trigger] p.dest_of(i) == d;
            assert(0 <= i < n && bit(ind, i) && p.dest_of(i) == d);
        }
    }
}

/// The set `{0, ..., k - 1}` ranks 0.
proof fn lemma_comb_rank_low_mask(k: nat, n: int)
    requires
        k < 16,
        0 <= n <= 16,
    ensures
        comb_rank(low_mask(k), n) == 0,
    decreases n,
{
    if n > 0 {
        lemma_comb_rank_low_mask(k, n - 1);
        lemma_low_mask(k, n - 1);
        lemma_popcount_low_mask(k, n - 1);
        if bit(low_mask(k), n - 1) {
            let j = (n - 1) as nat;
            assert(falling(j, j + 1) == 0);
            lemma_factorial_pos(j + 1);
            let f = factorial(j + 1);
            assert(0nat / f == 0) by (nonlinear_arith)
                requires
                    f >= 1,
            ;
            assert(binomial(j, j + 1) == 0);
        }
    }
}

impl<const N: usize> Perm<N> {
    /// The index of the identity is 0.
    pub proof fn law_index_identity()
        requires
            N < 16,
        ensures
            lehmer_index(Self::identity_perm()@) == 0,
    {
        Self::lemma_identity_perm();
        let s = Self::identity_perm()@;
        lemma_lehmer_sum_zero(s, N as int);
    }

    /// A permutation that keeps all the given indices in place has partial index 0.
    pub proof fn law_index_partial_fixed(self, ind: Seq<usize>)
        requires
            ind.len() <= N <= 16,
            distinct_below(ind, N as int),
            forall|t: int| 0 <= t < ind.len() ==> #[trigger] self.dest_of(ind[t] as int) == ind[t],
        ensures
            selection_sum(self.partial_image(ind), N as int, ind.len() as int, ind.len() as int) == 0,
    {
        let img = self.partial_image(ind);
        assert forall|t: int| 0 <= t < ind.len() implies #[trigger] img[t] == t by {
            let x = ind[t] as int;
            assert(member(ind, x));
            let u = choose|u: int| 0 <= u < ind.len() && #[trigger] ind[u] == x;
            if u != t {
                assert(ind[u] != ind[t]);
            }
        }
        lemma_selection_sum_zero(img, N as int, ind.len() as int, ind.len() as int);
    }

    /// A permutation that keeps all the given indices in place has unordered partial
    /// index 0.
    pub proof fn law_index_partial_unordered_fixed(self, indices: u16)
        requires
            popcount(indices, 16) < 16,
            forall|i: int| 0 <= i < 16 && bit(indices, i) ==> #[trigger] self.dest_of(i) == i,
        ensures
            comb_rank(self.unordered_image(indices), 16) == 0,
    {
        let img = self.image_mask(indices, 16);
        assert forall|d: int| 0 <= d < 16 implies bit(img, d) == bit(indices, d) by {
            lemma_image_mask_bits(self, indices, 16, d);
            if bit(indices, d) {
                assert(0 <= d < 16 && bit(indices, d) && self.dest_of(d) == d);
            }
        }
        lemma_bit_ext(img, indices);
        lemma_comb_rank_low_mask(popcount(indices, 16), 16);
    }
}

/// The image of the set `ind` (below `N`) under a permutation: its members are the
/// destinations of the members, and it has as many.
pub proof fn lemma_image_bits<const N: usize>(p: Perm<N>, ind: u16, n: int)
    requires
        0 <= n <= 16,
        N <= 16,
        p.valid(),
        forall|j: int| N <= j < 16 ==> !#[trigger] bit(ind, j),
    ensures
        forall|d: int|
            0 <= d < 16 ==> (#[trigger] bit(p.image_mask(ind, n), d) <==> exists|i: int|
                0 <= i < n && bit(ind, i) && #[trigger] p.dest_of(i) == d),
        popcount(p.image_mask(ind, n), 16) == popcount(ind, n),
    decreases n,
{
    if n == 0 {
        lemma_popcount_zero(16);
        assert forall|d: int| 0 <= d < 16 implies !#[trigger] bit(p.image_mask(ind, n), d) by {
            crate::bitset::lemma_bit_zero(d);
        }
    } else {
        lemma_image_bits(p, ind, n - 1);
        let prev = p.image_mask(ind, n - 1);
        if bit(ind, n - 1) {
            let d0 = p.dest_of(n - 1);
            assert(d0 < N);
            assert forall|d: int|
                0 <= d < 16 implies (#[trigger] bit(p.image_mask(ind, n), d) <==> exists|i: int|
                    0 <= i < n && bit(ind, i) && #[trigger] p.dest_of(i) == d) by {
                lemma_bit_or(prev, 1, d0, d);
                if exists|i: int| 0 <= i < n && bit(ind, i) && #[trigger] p.dest_of(i) == d {
                    let i = choose|i: int| 0 <= i < n && bit(ind, i) && #[trigger] p.dest_of(i) == d;
                    if i < n - 1 {
                        assert(0 <= i < n - 1 && bit(ind, i) && p.dest_of(i) == d);
                    }
                }
                if exists|i: int| 0 <= i < n - 1 && bit(ind, i) && #[trigger] p.dest_of(i) == d {
                    let i = choose|i: int| 0 <= i < n - 1 && bit(ind, i) && #[trigger] p.dest_of(i) == d;
                    assert(0 <= i < n && bit(ind, i) && p.dest_of(i) == d);
                }
                if d == d0 {
                    assert(0 <= n - 1 < n && bit(ind, n - 1) && p.dest_of(n - 1) == d);
                }
            }
            lemma_popcount_or(prev, d0, 16);
            if bit(prev, d0) {
                let i = choose|i: int| 0 <= i < n - 1 && bit(ind, i) && #[trigger] p.dest_of(i) == d0;
                assert(i < N);
                assert(p.dest_of(i) != p.dest_of(n - 1));
            }
        } else {
            assert forall|d: int|
                0 <= d < 16 implies (#[trigger] bit(p.image_mask(ind, n), d) <==> exists|i: int|
                    0 <= i < n && bit(ind, i) && #[trigger] p.dest_of(i) == d) by {
                if exists|i: int| 0 <= i < n && bit(ind, i) && #[trigger] p.dest_of(i) == d {
                    let i = choose|i: int| 0 <= i < n && bit(ind, i) && #[trigger] p.dest_of(i) == d;
                    assert(0 <= i < n - 1 && bit(ind, i) && p.dest_of(i) == d);
                }
                if exists|i: int| 0 <= i < n - 1 && bit(ind, i) && #[trigger] p.dest_of(i) == d {
                    let i = choose|i: int| 0 <= i < n - 1 && bit(ind, i) && #[trigger] p.dest_of(i) == d;
                    assert(0 <= i < n && bit(ind, i) && p.dest_of(i) == d);
                }
            }
        }
    }
}

impl<const N: usize> Perm<N> {
    /// The image of `indices` is the set `image_mask` computes, with as many members.
    proof fn lemma_image_set(self, indices: u16)
        requires
            N <= 16,
            self.valid(),
            Self::indices_in_range(indices),
        ensures
            self.image_set(indices) == members(self.image_mask(indices, 16)),
            popcount(self.image_mask(indices, 16), 16) == popcount(indices, 16),
    {
        lemma_image_bits(self, indices, 16);
        let img = self.image_mask(indices, 16);
        assert forall|d: int| #[trigger] self.image_set(indices).contains(d) <==> members(img).contains(d) by {
            if self.image_set(indices).contains(d) {
                let i = choose|i: int| 0 <= i < 16 && bit(indices, i) && self.dest_of(i) == d;
                assert(i < N);
                assert(0 <= d < 16);
            }
        }
        assert(self.image_set(indices) =~= members(img));
    }

    /// The rank of the unordered image is below the number of sets of its size, and 0
    /// exactly when the image is `indices` itself.
    proof fn lemma_unordered_rank(self, indices: u16)
        requires
            N <= 16,
            self.valid(),
            Self::indices_in_range(indices),
            popcount(indices, 16) < 16,
        ensures
            comb_rank(self.unordered_image(indices), 16) < binomial(N as nat, popcount(indices, 16)),
            comb_rank(self.unordered_image(indices), 16) == 0 <==> self.image_set(indices)
                == members(indices),
    {
        let k = popcount(indices, 16);
        let img = self.image_mask(indices, 16);
        let z = low_mask(k);
        self.lemma_image_set(indices);
        lemma_popcount_low_mask(k, 16);
        let u = self.unordered_image(indices);
        assert(popcount(u, 16) == k);
        // No member of any of the three candidate sets is `N` or above.
        lemma_comb_rank_clear_above(indices, N as int, 16);
        lemma_popcount_bound(indices, N as int);
        lemma_image_bits(self, indices, 16);
        assert forall|j: int| N <= j < 16 implies !#[trigger] bit(u, j) by {
            lemma_low_mask(k, j);
            if bit(img, j) {
                let i = choose|i: int| 0 <= i < 16 && bit(indices, i) && #[trigger] self.dest_of(i) == j;
                assert(i < N);
            }
        }
        lemma_comb_rank_clear_above(u, N as int, 16);
        lemma_comb_rank_below(u, N as int);
        lemma_comb_rank_low_mask(k, 16);
        if comb_rank(u, 16) == 0 {
            lemma_rank_zero_low(u, k);
        }
        if self.image_set(indices) == members(indices) {
            assert forall|d: int| 0 <= d < 16 implies bit(img, d) == bit(indices, d) by {
                assert(members(img).contains(d) == members(indices).contains(d));
            }
            lemma_bit_ext(img, indices);
        }
    }

    /// Permutations with the same unordered partial index send `indices` to the same set.
    pub proof fn law_index_partial_unordered_injective(p: Self, q: Self, indices: u16)
        requires
            N <= 16,
            p.valid(),
            q.valid(),
            Self::indices_in_range(indices),
            popcount(indices, 16) < 16,
            comb_rank(p.unordered_image(indices), 16) == comb_rank(q.unordered_image(indices), 16),
        ensures
            p.image_set(indices) == q.image_set(indices),
    {
        let k = popcount(indices, 16);
        p.lemma_image_set(indices);
        q.lemma_image_set(indices);
        lemma_popcount_low_mask(k, 16);
        let up = p.unordered_image(indices);
        let uq = q.unordered_image(indices);
        assert(popcount(up, 16) == k && popcount(uq, 16) == k);
        lemma_comb_rank_injective(up, uq, 16);
        lemma_bit_ext(up, uq);
    }
}

/// The elements of a cycle, in decimal, separated by spaces.
pub open spec fn joined(c: Seq<usize>) -> Seq<char>
    decreases c.len(),
{
    if c.len() == 0 {
        Seq::empty()
    } else if c.len() == 1 {
        decimal(c[0] as nat)
    } else {
        joined(c.drop_last()) + seq![' '] + decimal(c.last() as nat)
    }
}

/// A cycle in parentheses, such as `(0 3 2)`.
pub open spec fn cycle_text(c: Seq<usize>) -> Seq<char> {
    seq!['('] + joined(c) + seq![')']
}

/// The cycles one after another.
pub open spec fn cycles_text(cs: Seq<Vec<usize>>) -> Seq<char>
    decreases cs.len(),
{
    if cs.len() == 0 {
        Seq::empty()
    } else {
        cycles_text(cs.drop_last()) + cycle_text(cs.last()@)
    }
}

/// A permutation of `n` elements written by its cycles, such as `Perm<4>((0 3 2))`.
pub open spec fn perm_text(n: nat, cs: Seq<Vec<usize>>) -> Seq<char> {
    seq!['P', 'e', 'r', 'm', '<'] + decimal(n) + seq!['>', '('] + cycles_text(cs) + seq![')']
}

impl<const N: usize> Perm<N> {
    /// `cs` are the cycles of the permutation of length at least 2, each from its least
    /// element, in increasing order of their least elements.
    pub open spec fn cycles_of(self, cs: Seq<Vec<usize>>) -> bool {
        &&& forall|k: int| 0 <= k < cs.len() ==> self.is_cycle(#[trigger] cs[k]@)
        &&& forall|k: int, l: int, a: int, b: int|
            0 <= k < cs.len() && 0 <= l < cs.len() && k != l && 0 <= a < cs[k]@.len() && 0 <= b
                < cs[l]@.len() ==> #[trigger] cs[k]@[a] != #[trigger] cs[l]@[b]
        &&& forall|x: int|
            0 <= x < N && self.dest_of(x) != x ==> exists|k: int, a: int|
                0 <= k < cs.len() && 0 <= a < cs[k]@.len() && #[trigger] cs[k]@[a] == x
        &&& forall|k: int, a: int|
            0 <= k < cs.len() && 0 <= a < cs[k]@.len() ==> cs[k]@[0] <= #[trigger] cs[k]@[a]
        &&& forall|k: int, l: int| 0 <= k < l < cs.len() ==> #[trigger] cs[k]@[0] < #[trigger] cs[l]@[0]
    }

    /// The permutation written in cycle notation, such as `Perm<4>((0 3 2))`.
    pub fn cycle_notation(&self) -> (r: String)
        requires
            N <= 16,
            self.valid(),
        ensures
            exists|cs: Seq<Vec<usize>>| self.cycles_of(cs) && r@ == perm_text(N as nat, cs),
    {
        let cs = self.cycles();
        let mut out: Vec<char> = Vec::new();
        out.push('P');
        out.push('e');
        out.push('r');
        out.push('m');
        out.push('<');
        push_decimal(&mut out, N);
        out.push('>');
        out.push('(');
        let ghost head = out@;
        proof {
            assert(cs@.subrange(0, 0) =~= Seq::<Vec<usize>>::empty());
        }
        let mut k: usize = 0;
        while k < cs.len()
            invariant
                k <= cs@.len(),
                out@ == head + cycles_text(cs@.subrange(0, k as int)),
            decreases cs@.len() - k,
        {
            let c = &cs[k];
            let ghost base = out@;
            out.push('(');
            let mut j: usize = 0;
            while j < c.len()
                invariant
                    j <= c@.len(),
                    out@ == base + seq!['('] + joined(c@.subrange(0, j as int)),
                decreases c@.len() - j,
            {
                if j > 0 {
                    out.push(' ');
                }
                push_decimal(&mut out, c[j]);
                proof {
                    let s = c@.subrange(0, j + 1);
                    assert(s.drop_last() =~= c@.subrange(0, j as int));
                    if j == 0 {
                        assert(c@.subrange(0, j as int) =~= Seq::<usize>::empty());
                    }
                    assert(out@ =~= base + seq!['('] + joined(s));
                }
                j = j + 1;
            }
            out.push(')');
            proof {
                assert(c@.subrange(0, j as int) =~= c@);
                let s = cs@.subrange(0, k + 1);
                assert(s.drop_last() =~= cs@.subrange(0, k as int));
                assert(out@ =~= head + cycles_text(s));
            }
            k = k + 1;
        }
        out.push(')');
        proof {
            assert(cs@.subrange(0, k as int) =~= cs@);
            assert(out@ =~= perm_text(N as nat, cs@));
            assert(self.cycles_of(cs@));
        }
        text_of(out)
    }
}

/// The word whose nibbles `0..n` hold `s[0..n]` and whose other nibbles are zero.
pub open spec fn pack_nibs(s: Seq<int>, n: int) -> u64
    decreases n,
{
    if n <= 0 {
        0
    } else {
        pack_nibs(s, n - 1) | (((s[n - 1] as u64) << ((4 * (n - 1)) as u64)) as u64)
    }
}

/// The nibbles of `pack_nibs(s, n)`.
proof fn lemma_pack_nibs(s: Seq<int>, n: int)
    requires
        0 <= n <= 16,
        forall|i: int| 0 <= i < n ==> 0 <= #[trigger] s[i] < 16,
    ensures
        forall|j: int| 0 <= j < 16 ==> #[trigger] nib(pack_nibs(s, n), j) == if j < n {
            s[j]
        } else {
            0
        },
    decreases n,
{
    if n == 0 {
        assert forall|j: int| 0 <= j < 16 implies #[trigger] nib(pack_nibs(s, n), j) == 0 by {
            lemma_nib_zero(j);
        }
    } else {
        lemma_pack_nibs(s, n - 1);
        let prev = pack_nibs(s, n - 1);
        let d = s[n - 1] as u64;
        assert forall|j: int| 0 <= j < 16 implies #[trigger] nib(pack_nibs(s, n), j) == if j < n {
            s[j]
        } else {
            0
        } by {
            lemma_nib_or(prev, d, n - 1, j);
            assert(pack_nibs(s, n) == prev | ((d << ((4 * (n - 1)) as u64)) as u64));
            if j == n - 1 {
                let x = (prev >> ((4 * j) as u64)) & 0xfu64;
                assert(nib(prev, j) == 0);
                assert(x as int == nib(prev, j));
                assert((0u64 | d) == d) by (bit_vector);
            }
        }
    }
}

impl<const N: usize> Perm<N> {
    /// The permutation sending each `i < N` to `s[i]`.
    pub closed spec fn from_seq(s: Seq<int>) -> Self {
        Perm(pack_nibs(s, N as int))
    }

    /// `from_seq(s)` sends each element where `s` says, with clear upper nibbles.
    pub proof fn lemma_from_seq(s: Seq<int>)
        requires
            N <= 16,
            s.len() == N,
            forall|i: int| 0 <= i < N ==> 0 <= #[trigger] s[i] < 16,
        ensures
            Self::from_seq(s)@ == s,
            Self::from_seq(s).upper_clear(),
            forall|i: int| 0 <= i < N ==> #[trigger] Self::from_seq(s).dest_of(i) == s[i],
    {
        lemma_pack_nibs(s, N as int);
        let p = Self::from_seq(s);
        assert(p@ =~= s);
    }

    /// Any two permutations of `N` elements compose.
    pub proof fn lemma_compose_exists(p: Self, q: Self)
        requires
            N <= 16,
            p.valid(),
            q.valid(),
        ensures
            exists|r: Self| r.is_compose_of(p, q),
    {
        let s = Seq::new(N as nat, |i: int| q.dest_of(p.dest_of(i)));
        assert forall|i: int| 0 <= i < N implies 0 <= #[trigger] s[i] < 16 by {
            assert(p.dest_of(i) < N);
            assert(q.dest_of(p.dest_of(i)) < N);
        }
        Self::lemma_from_seq(s);
        let r = Self::from_seq(s);
        assert(r.is_compose_of(p, q));
    }
}

} // verus!
