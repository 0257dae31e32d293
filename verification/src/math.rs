//! Small combinatorial functions: factorial, falling factorial, binomial, and counting.
use vstd::prelude::*;

use vstd::relations::injective_on;
use vstd::set_lib::lemma_map_size;

use crate::perm::lemma_injective_surjective;

verus! {

/// `n!`
pub open spec fn factorial(n: nat) -> nat
    decreases n,
{
    if n == 0 {
        1
    } else {
        n * factorial((n - 1) as nat)
    }
}

/// Number of ordered selections of `k` items out of `n`:
/// `n * (n - 1) * ... * (n - k + 1)`, and 0 when `k > n`.
pub open spec fn falling(n: nat, k: nat) -> nat
    decreases k,
{
    if k > n {
        0
    } else if k == 0 {
        1
    } else {
        falling(n, (k - 1) as nat) * ((n - k + 1) as nat)
    }
}

/// Number of unordered selections of `k` items out of `n`.
pub open spec fn binomial(n: nat, k: nat) -> nat {
    falling(n, k) / factorial(k)
}

pub proof fn lemma_factorial_pos(n: nat)
    ensures
        factorial(n) >= 1,
    decreases n,
{
    if n > 0 {
        lemma_factorial_pos((n - 1) as nat);
        assert(n * factorial((n - 1) as nat) >= 1) by (nonlinear_arith)
            requires
                n >= 1,
                factorial((n - 1) as nat) >= 1,
        ;
    }
}

pub proof fn lemma_factorial_mono(a: nat, b: nat)
    requires
        a <= b,
    ensures
        factorial(a) <= factorial(b),
    decreases b,
{
    if a < b {
        lemma_factorial_mono(a, (b - 1) as nat);
        lemma_factorial_pos((b - 1) as nat);
        assert(factorial((b - 1) as nat) <= b * factorial((b - 1) as nat)) by (nonlinear_arith)
            requires
                b >= 1,
        ;
    }
}

/// The values needed to rank four-element sets.
pub proof fn lemma_rank_values()
    ensures
        falling(15, 4) == 32760,
        factorial(4) == 24,
{
    let f1 = falling(15, 1);
    let f2 = falling(15, 2);
    let f3 = falling(15, 3);
    let f4 = falling(15, 4);
    assert(f1 == falling(15, 0) * 15);
    assert(f2 == f1 * 14);
    assert(f3 == f2 * 13);
    assert(f4 == f3 * 12);
    reveal_with_fuel(factorial, 5);
}

proof fn lemma_factorial_20()
    ensures
        factorial(20) == 2432902008176640000,
{
    assert(factorial(0) == 1);
    assert(factorial(1) == 1);
    assert(factorial(2) == 2);
    assert(factorial(3) == 6);
    assert(factorial(4) == 24);
    assert(factorial(5) == 120);
    assert(factorial(6) == 720);
    assert(factorial(7) == 5040);
    assert(factorial(8) == 40320);
    assert(factorial(9) == 362880);
    assert(factorial(10) == 3628800);
    assert(factorial(11) == 39916800);
    assert(factorial(12) == 479001600);
    assert(factorial(13) == 6227020800);
    assert(factorial(14) == 87178291200);
    assert(factorial(15) == 1307674368000);
    assert(factorial(16) == 20922789888000);
    assert(factorial(17) == 355687428096000);
    assert(factorial(18) == 6402373705728000);
    assert(factorial(19) == 121645100408832000);
    assert(factorial(20) == 2432902008176640000);
}

/// For `k <= n` the falling factorial grows with `k`.
pub proof fn lemma_falling_mono(n: nat, j: nat, k: nat)
    requires
        j <= k <= n,
    ensures
        1 <= falling(n, j) <= falling(n, k),
    decreases k,
{
    if j < k {
        lemma_falling_mono(n, j, (k - 1) as nat);
        let f = falling(n, (k - 1) as nat);
        assert(f <= f * ((n - k + 1) as nat)) by (nonlinear_arith)
            requires
                n - k + 1 >= 1,
        ;
    } else if k > 0 {
        lemma_falling_mono(n, (k - 1) as nat, (k - 1) as nat);
        let f = falling(n, (k - 1) as nat);
        assert(1 <= f * ((n - k + 1) as nat)) by (nonlinear_arith)
            requires
                n - k + 1 >= 1,
                f >= 1,
        ;
    }
}

/// For a fixed `k`, the falling factorial grows with `n` (once `k <= n`).
pub proof fn lemma_falling_mono_n(a: nat, b: nat, k: nat)
    requires
        k <= a <= b,
    ensures
        falling(a, k) <= falling(b, k),
    decreases k,
{
    if k > 0 {
        lemma_falling_mono_n(a, b, (k - 1) as nat);
        lemma_falling_mono(a, (k - 1) as nat, (k - 1) as nat);
        let fa = falling(a, (k - 1) as nat);
        let fb = falling(b, (k - 1) as nat);
        assert(fa * ((a - k + 1) as nat) <= fb * ((b - k + 1) as nat)) by (nonlinear_arith)
            requires
                fa <= fb,
                a <= b,
                k <= a,
                fa >= 0,
        ;
    }
}

/// `C(n, k) <= n * (n - 1) * ... * (n - k + 1)`.
pub proof fn lemma_binomial_le_falling(n: nat, k: nat)
    ensures
        binomial(n, k) <= falling(n, k),
{
    lemma_factorial_pos(k);
    let f = falling(n, k);
    let g = factorial(k);
    assert(f / g <= f) by (nonlinear_arith)
        requires
            g >= 1,
            f >= 0,
    ;
}

/// `C(n, k)` by Pascal's rule.
pub open spec fn pascal(n: nat, k: nat) -> nat
    decreases n,
{
    if k == 0 {
        1
    } else if n == 0 {
        0
    } else {
        pascal((n - 1) as nat, (k - 1) as nat) + pascal((n - 1) as nat, k)
    }
}

/// `n * (n - 1) * ... * (n - k + 1)` peels off its first factor.
proof fn lemma_falling_first(n: nat, k: nat)
    requires
        1 <= n,
        1 <= k,
    ensures
        falling(n, k) == n * falling((n - 1) as nat, (k - 1) as nat),
    decreases k,
{
    if k > n {
        assert(falling(n, k) == 0);
        assert(falling((n - 1) as nat, (k - 1) as nat) == 0);
    } else if k == 1 {
        assert(falling(n, 0) == 1);
        assert(falling((n - 1) as nat, 0) == 1);
    } else {
        lemma_falling_first(n, (k - 1) as nat);
        let f2 = falling((n - 1) as nat, (k - 2) as nat);
        assert(falling((n - 1) as nat, (k - 1) as nat) == f2 * ((n - k + 1) as nat));
        assert(falling(n, k) == falling(n, (k - 1) as nat) * ((n - k + 1) as nat));
        assert(n * f2 * ((n - k + 1) as nat) == n * (f2 * ((n - k + 1) as nat))) by (nonlinear_arith);
    }
}

/// `falling(n, k) == k! * pascal(n, k)`.
#[verifier::spinoff_prover]
proof fn lemma_falling_pascal(n: nat, k: nat)
    ensures
        falling(n, k) == factorial(k) * pascal(n, k),
    decreases n,
{
    if k == 0 {
        assert(falling(n, 0) == 1);
        assert(factorial(0) == 1);
        assert(pascal(n, 0) == 1);
        assert(factorial(k) * pascal(n, k) == 1);
    } else if n == 0 {
        assert(falling(0, k) == 0);
        assert(pascal(0, k) == 0);
        let fk = factorial(k);
        assert(fk * 0 == 0) by (nonlinear_arith);
        assert(factorial(k) * pascal(n, k) == 0);
    } else {
        let n1 = (n - 1) as nat;
        let k1 = (k - 1) as nat;
        lemma_falling_pascal(n1, k1);
        lemma_falling_pascal(n1, k);
        lemma_falling_first(n, k);
        let f = falling(n1, k1);
        let g = falling(n1, k);
        // falling(n - 1, k) == falling(n - 1, k - 1) * (n - k), reading n - k as 0 when k > n - 1.
        assert(g == f * (n - k)) by {
            if k > n1 {
                assert(g == 0);
                if k1 > n1 {
                    assert(f == 0);
                } else {
                    assert(k == n);
                }
            } else {
                assert(g == falling(n1, k1) * ((n1 - k + 1) as nat));
            }
        }
        let fk1 = factorial(k1);
        assert(factorial(k) == k * fk1);
        let p1 = pascal(n1, k1);
        let p2 = pascal(n1, k);
        assert(falling(n, k) == factorial(k) * pascal(n, k)) by (nonlinear_arith)
            requires
                falling(n, k) == n * f,
                f == fk1 * p1,
                g == factorial(k) * p2,
                g == f * (n - k),
                factorial(k) == k * fk1,
                pascal(n, k) == p1 + p2,
        ;
    }
}

/// `binomial` agrees with Pascal's rule.
pub proof fn lemma_binomial_pascal(n: nat, k: nat)
    ensures
        binomial(n, k) == pascal(n, k),
{
    lemma_falling_pascal(n, k);
    lemma_factorial_pos(k);
    let f = factorial(k);
    let p = pascal(n, k);
    assert((f * p) / f == p) by (nonlinear_arith)
        requires
            f >= 1,
    ;
}

/// `n!`, for `n <= 20` (the largest factorial that fits in 64 bits).
pub fn fact(n: usize) -> (r: usize)
    requires
        n <= 20,
        factorial(n as nat) <= usize::MAX,
    ensures
        r == factorial(n as nat),
{
    proof {
        lemma_factorial_20();
        reveal_with_fuel(factorial, 21);
    }
    match n {
        0 => 1u64 as usize,
        1 => 1u64 as usize,
        2 => 2u64 as usize,
        3 => 6u64 as usize,
        4 => 24u64 as usize,
        5 => 120u64 as usize,
        6 => 720u64 as usize,
        7 => 5040u64 as usize,
        8 => 40320u64 as usize,
        9 => 362880u64 as usize,
        10 => 3628800u64 as usize,
        11 => 39916800u64 as usize,
        12 => 479001600u64 as usize,
        13 => 6227020800u64 as usize,
        14 => 87178291200u64 as usize,
        15 => 1307674368000u64 as usize,
        16 => 20922789888000u64 as usize,
        17 => 355687428096000u64 as usize,
        18 => 6402373705728000u64 as usize,
        19 => 121645100408832000u64 as usize,
        _ => 2432902008176640000u64 as usize,
    }
}

/// Falling factorial `n * (n - 1) * ... * (n - k + 1)`, 0 when `k > n`.
pub fn perm(n: usize, k: usize) -> (r: usize)
    requires
        falling(n as nat, k as nat) <= usize::MAX,
    ensures
        r == falling(n as nat, k as nat),
{
    if k > n {
        0
    } else {
        let mut ans: usize = 1;
        let mut i: usize = 0;
        while i < k
            invariant
                i <= k <= n,
                ans == falling(n as nat, i as nat),
                falling(n as nat, k as nat) <= usize::MAX,
            decreases k - i,
        {
            proof {
                lemma_falling_mono(n as nat, (i + 1) as nat, k as nat);
            }
            ans = ans * (n - i);
            i = i + 1;
        }
        ans
    }
}

/// Binomial coefficient `C(n, k)`, 0 when `k > n`.
pub fn binom(n: usize, k: usize) -> (r: usize)
    requires
        k <= n ==> k <= 20 && falling(n as nat, k as nat) <= usize::MAX && factorial(k as nat)
            <= usize::MAX,
    ensures
        r == binomial(n as nat, k as nat),
{
    proof {
        lemma_factorial_pos(k as nat);
    }
    if k > n {
        0
    } else {
        perm(n, k) / fact(k)
    }
}


/// The number of `i` in `0..n` at which `f` holds.
pub open spec fn count_below(f: spec_fn(int) -> bool, n: int) -> nat
    decreases n,
{
    if n <= 0 {
        0
    } else {
        count_below(f, n - 1) + if f(n - 1) {
            1nat
        } else {
            0nat
        }
    }
}

/// The `i` in `0..n` at which `f` holds.
pub open spec fn holds_below(f: spec_fn(int) -> bool, n: int) -> Set<int> {
    Set::new(|i: int| 0 <= i < n && f(i))
}

/// `count_below` is the size of `holds_below`.
pub proof fn lemma_count_below_set(f: spec_fn(int) -> bool, n: int)
    requires
        0 <= n,
    ensures
        holds_below(f, n).finite(),
        holds_below(f, n).len() == count_below(f, n),
    decreases n,
{
    if n == 0 {
        assert(holds_below(f, 0) =~= Set::empty());
    } else {
        lemma_count_below_set(f, n - 1);
        if f(n - 1) {
            assert(holds_below(f, n) =~= holds_below(f, n - 1).insert(n - 1));
        } else {
            assert(holds_below(f, n) =~= holds_below(f, n - 1));
        }
    }
}

/// Counting is unchanged along a permutation `p` of `0..n` that carries `f` to `g`.
pub proof fn lemma_count_below_perm(
    f: spec_fn(int) -> bool,
    g: spec_fn(int) -> bool,
    p: spec_fn(int) -> int,
    n: int,
)
    requires
        0 <= n,
        forall|i: int| 0 <= i < n ==> 0 <= #[trigger] p(i) < n,
        forall|i: int, j: int| 0 <= i < n && 0 <= j < n && i != j ==> #[trigger] p(i) != #[trigger] p(j),
        forall|i: int| 0 <= i < n ==> g(#[trigger] p(i)) == f(i),
    ensures
        count_below(g, n) == count_below(f, n),
{
    lemma_count_below_set(f, n);
    lemma_count_below_set(g, n);
    let x = holds_below(f, n);
    let y = holds_below(g, n);
    assert(injective_on(p, x)) by {
        assert forall|a: int, b: int| x.contains(a) && x.contains(b) && #[trigger] p(a) == #[trigger] p(b) implies a == b by {
            if a != b {
                assert(p(a) != p(b));
            }
        }
    }
    assert(x.map(p) =~= y) by {
        assert forall|j: int| y.contains(j) implies x.map(p).contains(j) by {
            lemma_injective_surjective(p, n, j);
            let i = choose|i: int| 0 <= i < n && #[trigger] p(i) == j;
            assert(x.contains(i));
        }
        assert forall|j: int| x.map(p).contains(j) implies y.contains(j) by {
            let i = choose|i: int| x.contains(i) && p(i) == j;
            assert(g(p(i)) == f(i));
        }
    }
    lemma_map_size(x, y, p);
}


/// Counts of predicates that agree below `n` are equal.
pub proof fn lemma_count_below_ext(f: spec_fn(int) -> bool, g: spec_fn(int) -> bool, n: int)
    requires
        forall|i: int| 0 <= i < n ==> #[trigger] f(i) == g(i),
    ensures
        count_below(f, n) == count_below(g, n),
    decreases n,
{
    if n > 0 {
        lemma_count_below_ext(f, g, n - 1);
        assert(f(n - 1) == g(n - 1));
    }
}

/// Where exactly one of `f` and `g` holds, the count has the parity of the two counts
/// together.
pub proof fn lemma_count_below_xor(f: spec_fn(int) -> bool, g: spec_fn(int) -> bool, n: int)
    ensures
        count_below(|i: int| f(i) != g(i), n) % 2 == (count_below(f, n) + count_below(g, n)) % 2,
    decreases n,
{
    if n > 0 {
        lemma_count_below_xor(f, g, n - 1);
    }
}

} // verus!
