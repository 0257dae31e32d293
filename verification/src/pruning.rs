//! Pruning tables: distances in moves over a pair of coordinates, one of them reduced by
//! symmetry.
use std::collections::VecDeque;
use std::marker::PhantomData;
use vstd::prelude::*;

use crate::coord::sym_table::sym_reaches;
use crate::coord::{admissible, Coord, SymTable};
use crate::cube::{after_move, Cube};
use crate::mov::Move;
use crate::perm::Perm;
use crate::sym::Sym;

verus! {

/// Number of unset entries of `s` below `n`.
pub open spec fn count_none(s: Seq<Option<u8>>, n: int) -> nat
    decreases n,
{
    if n <= 0 {
        0
    } else {
        count_none(s, n - 1) + if s[n - 1] is None {
            1nat
        } else {
            0nat
        }
    }
}

proof fn lemma_count_none_bound(s: Seq<Option<u8>>, n: int)
    requires
        0 <= n,
    ensures
        count_none(s, n) <= n,
    decreases n,
{
    if n > 0 {
        lemma_count_none_bound(s, n - 1);
    }
}

proof fn lemma_count_none_set(s: Seq<Option<u8>>, x: int, v: u8, n: int)
    requires
        0 <= x < s.len(),
        n <= s.len(),
    ensures
        count_none(s.update(x, Some(v)), n) + (if 0 <= x < n && s[x] is None {
            1int
        } else {
            0int
        }) == count_none(s, n),
    decreases n,
{
    if n > 0 {
        lemma_count_none_set(s, x, v, n - 1);
    }
}

proof fn lemma_count_none_zero(s: Seq<Option<u8>>, n: int, x: int)
    requires
        0 <= x < n <= s.len(),
        count_none(s, n) == 0,
    ensures
        s[x] is Some,
    decreases n,
{
    if x < n - 1 {
        lemma_count_none_zero(s, n - 1, x);
    }
}

/// `b` is reached from the solved cube in `n` steps of the search: each step turns one
/// move of `moveset` and brings the cube to the canonical form of its `R` class.
pub open spec fn reached<R: Coord>(rsym: SymTable<R>, moveset: Seq<Move>, b: Cube, n: nat) -> bool
    decreases n,
{
    if n == 0 {
        b.spec_is_solved()
    } else {
        exists|a: Cube, m: Move|
            #![trigger after_move(a, m)]
            moveset.contains(m) && reached::<R>(rsym, moveset, a, (n - 1) as nat) && b
                == rsym.conj_of(R::spec_index(after_move(a, m)) as int).spec_conj(after_move(a, m))
    }
}

/// One more step from a reached cube reaches its canonical successor.
proof fn lemma_reached_step<R: Coord>(rsym: SymTable<R>, moveset: Seq<Move>, a: Cube, m: Move, n: nat, b: Cube)
    requires
        reached::<R>(rsym, moveset, a, n),
        moveset.contains(m),
        b == rsym.conj_of(R::spec_index(after_move(a, m)) as int).spec_conj(after_move(a, m)),
    ensures
        reached::<R>(rsym, moveset, b, n + 1),
{
    assert(((n + 1) - 1) as nat == n);
}

/// The cube `b` waits in the queue `q` at depth `e`.
spec fn queued(q: Seq<(Cube, usize)>, b: Cube, e: nat) -> bool {
    exists|i: int| 0 <= i < q.len() && (#[trigger] q[i]).0 == b && q[i].1 == e
}

/// What waits in a queue waits after a push.
proof fn lemma_queued_push(q: Seq<(Cube, usize)>, y: (Cube, usize), b: Cube, e: nat)
    requires
        queued(q, b, e),
    ensures
        queued(q.push(y), b, e),
{
    let i = choose|i: int| 0 <= i < q.len() && (#[trigger] q[i]).0 == b && q[i].1 == e;
    assert(q.push(y)[i] == q[i]);
}

/// What waits in a queue is at its front or waits after the front is taken.
proof fn lemma_queued_pop(q: Seq<(Cube, usize)>, b: Cube, e: nat)
    requires
        queued(q, b, e),
    ensures
        (q[0].0 == b && q[0].1 == e) || queued(q.subrange(1, q.len() as int), b, e),
{
    let i = choose|i: int| 0 <= i < q.len() && (#[trigger] q[i]).0 == b && q[i].1 == e;
    if i > 0 {
        assert(q.subrange(1, q.len() as int)[i - 1] == q[i]);
    }
}

/// Pruning table for a composite coordinate (R, C), where R is reduced by symmetry.
pub struct PrunTable<R: Coord, C: Coord> {
    rsym: SymTable<R>,
    dist: Vec<u8>,
    depth: Ghost<Seq<nat>>,
    _r: PhantomData<R>,
    _c: PhantomData<C>,
}

impl<R: Coord, C: Coord> PrunTable<R, C> {
    /// The composite coordinate of a cube: the class of its `R` coordinate, then its `C`
    /// coordinate.
    pub open spec fn coord_of(rsym: SymTable<R>, c: Cube) -> int {
        rsym.class_of(R::spec_index(c) as int) * C::spec_n_values() + C::spec_index(c)
    }

    /// The cube brought by a symmetry to the canonical representative of its class.
    pub open spec fn canonical(rsym: SymTable<R>, c: Cube) -> Cube {
        rsym.conj_of(R::spec_index(c) as int).spec_conj(c)
    }

    /// Entry `x` holding `v` is accounted for: the start entry 0 holding 0, or the
    /// coordinate of a conjugate (by a symmetry, as `C` conjugates) of a cube reached in `n`
    /// steps, with `v` the number `n` in a byte.
    pub open spec fn entry_witnessed(rsym: SymTable<R>, moveset: Seq<Move>, x: int, v: u8) -> bool {
        ||| x == 0 && v == 0
        ||| exists|b: Cube, n: nat, s: Sym|
            #![trigger reached::<R>(rsym, moveset, b, n), C::spec_conj(b, s)]
            reached::<R>(rsym, moveset, b, n) && v == n as u8 && x == Self::coord_of(
                rsym,
                C::spec_conj(b, s),
            )
    }

    /// The symmetry classes of `R`.
    pub closed spec fn table(self) -> SymTable<R> {
        self.rsym
    }

    /// The stored distance of composite coordinate `x`.
    pub closed spec fn dist_at(self, x: int) -> u8 {
        self.dist@[x]
    }

    /// Number of composite coordinates.
    pub closed spec fn n_entries(self) -> nat {
        self.dist@.len()
    }

    /// One distance per composite coordinate.
    pub open spec fn wf(self) -> bool {
        &&& self.table().wf()
        &&& self.n_entries() == self.table().n_classes() * C::spec_n_values()
    }

    /// The depth behind the stored distance of composite coordinate `x`: the number of
    /// steps, of which the stored byte keeps the low eight bits.
    pub closed spec fn depth_at(self, x: int) -> nat {
        self.depth@[x]
    }

    /// Turning the cube `c` to canonical form lands on a composite coordinate that `dist`
    /// has filled, with a depth in `gd` at most one more than `e`.
    pub open spec fn step_within(rsym: SymTable<R>, dist: Seq<Option<u8>>, gd: Seq<nat>, c: Cube, e: nat) -> bool {
        let y = Self::coord_of(rsym, Self::canonical(rsym, c));
        &&& 0 <= y < dist.len()
        &&& dist[y] is Some
        &&& gd[y] <= e + 1
    }

    /// Every move of `moveset` takes the cube `b`, of depth `e`, to a filled coordinate at
    /// most one step deeper.
    pub open spec fn moves_within(
        rsym: SymTable<R>,
        moveset: Seq<Move>,
        dist: Seq<Option<u8>>,
        gd: Seq<nat>,
        b: Cube,
        e: nat,
    ) -> bool {
        forall|k: int|
            0 <= k < moveset.len() ==> #[trigger] Self::step_within(rsym, dist, gd, after_move(b, moveset[k]), e)
    }

    /// The cube `b` accounts for entry `x` at depth `e`: it is reached from the solved cube
    /// in `e` steps, and it is the solved cube for the start entry 0, or a symmetric variant
    /// of it (as `C` conjugates) has composite coordinate `x`.
    pub open spec fn witness_ok(rsym: SymTable<R>, moveset: Seq<Move>, x: int, e: nat, b: Cube) -> bool {
        &&& reached::<R>(rsym, moveset, b, e)
        &&& (x == 0 && e == 0 || exists|s: Sym|
            #![trigger C::spec_conj(b, s)]
            x == Self::coord_of(rsym, C::spec_conj(b, s)))
    }

    /// Entry `x` is settled as a breadth-first search leaves it: its byte holds its depth,
    /// and a cube that accounts for it at that depth leads by every move of `moveset` to
    /// an entry at most one step deeper.
    pub open spec fn entry_settled(self, moveset: Seq<Move>, x: int) -> bool {
        &&& self.dist_at(x) == self.depth_at(x) as u8
        &&& exists|b: Cube|
            #![trigger Self::witness_ok(self.table(), moveset, x, self.depth_at(x), b)]
            Self::witness_ok(self.table(), moveset, x, self.depth_at(x), b) && forall|k: int|
                0 <= k < moveset.len() ==> #[trigger] self.depth_at(
                    Self::coord_of(self.table(), Self::canonical(self.table(), after_move(b, moveset[k]))),
                ) <= self.depth_at(x) + 1
    }

    /// Filling more entries keeps a cube's moves within one step: entries once filled keep
    /// their depths.
    proof fn lemma_within_grow(
        rsym: SymTable<R>,
        moveset: Seq<Move>,
        dist: Seq<Option<u8>>,
        gd: Seq<nat>,
        dist2: Seq<Option<u8>>,
        gd2: Seq<nat>,
        b: Cube,
        e: nat,
    )
        requires
            Self::moves_within(rsym, moveset, dist, gd, b, e),
            dist2.len() == dist.len(),
            forall|y: int| 0 <= y < dist.len() && (#[trigger] dist[y]) is Some ==> dist2[y] == dist[y] && gd2[y] == gd[y],
        ensures
            Self::moves_within(rsym, moveset, dist2, gd2, b, e),
    {
        assert forall|k: int| 0 <= k < moveset.len() implies #[trigger] Self::step_within(
            rsym,
            dist2,
            gd2,
            after_move(b, moveset[k]),
            e,
        ) by {
            assert(Self::step_within(rsym, dist, gd, after_move(b, moveset[k]), e));
            let y = Self::coord_of(rsym, Self::canonical(rsym, after_move(b, moveset[k])));
            assert(dist[y] is Some);
        }
    }

    /// Fill the table by a breadth-first search from the solved cube over the given moves;
    /// each newly reached class sets the distance of all of its symmetric variants (an
    /// entry already filled keeps its distance). `None` when some composite coordinate was
    /// never reached.
    pub fn new(moveset: &[Move]) -> (r: Option<Self>)
        requires
            R::reducible(),
            forall|i: int|
                0 <= i < moveset@.len() ==> ((R::needs_dr() || C::needs_dr())
                    ==> (#[trigger] moveset@[i]).is_drud_move()),
        ensures
            r matches Some(t) ==> t.wf(),
            r matches Some(t) ==> forall|x: int|
                0 <= x < t.n_entries() ==> #[trigger] Self::entry_witnessed(
                    t.table(),
                    moveset@,
                    x,
                    t.dist_at(x),
                ),
            r matches Some(t) ==> t.depth_at(0) == 0,
            r matches Some(t) ==> forall|x: int|
                0 <= x < t.n_entries() ==> #[trigger] t.entry_settled(moveset@, x),
    {
        let rsym = SymTable::<R>::new();
        let n_c = C::n_values();
        proof {
            R::lemma_n_values();
            C::lemma_n_values();
            R::lemma_identity_first();
            assert(rsym.entry_ok(0));
            assert(rsym.n_classes() * C::spec_n_values() <= 40320 * 40320) by (nonlinear_arith)
                requires
                    rsym.n_classes() <= 40320,
                    C::spec_n_values() <= 40320,
            ;
        }
        let total = rsym.n_conj_classes() * n_c;
        proof {
            assert(total >= 1) by (nonlinear_arith)
                requires
                    total == rsym.n_classes() * C::spec_n_values(),
                    rsym.n_classes() >= 1,
                    C::spec_n_values() >= 1,
            ;
        }
        let mut dist: Vec<Option<u8>> = Vec::new();
        let mut k: usize = 0;
        while k < total
            invariant
                k <= total,
                dist@.len() == k,
                forall|x: int| 0 <= x < k ==> #[trigger] dist@[x] is None,
            decreases total - k,
        {
            dist.push(None);
            k = k + 1;
        }
        let mut q: VecDeque<(Cube, usize)> = VecDeque::new();
        proof {
            lemma_count_none_set(dist@, 0, 0, total as int);
            assert forall|x: int| 0 <= x < total implies #[trigger] dist@[x] is None by {}
            assert(count_none(dist@, total as int) == total) by {
                lemma_count_none_all(dist@, total as int);
            }
        }
        let ghost none_before = dist@;
        dist.set(0, Some(0));
        let start = Cube::default();
        proof {
            Cube::lemma_solved_wf(start);
            Perm::<12>::lemma_identity_perm();
        }
        q.push_back((start, 0));
        let ghost mut gd: Seq<nat> = Seq::new(total as nat, |i: int| 0nat);
        let ghost mut wit: Seq<Cube> = Seq::new(total as nat, |i: int| start);
        let ghost mut front: nat = 0;
        proof {
            assert forall|x: int| 0 <= x < total && (#[trigger] dist@[x]) is Some implies x == 0 by {
                if x != 0 {
                    assert(none_before[x] is None);
                }
            }
            assert(q@[0] == (start, 0usize));
            assert(queued(q@, start, 0));
            assert(reached::<R>(rsym, moveset@, start, 0));
        }
        loop
            invariant
                R::reducible(),
                rsym.wf(),
                n_c == C::spec_n_values(),
                total == rsym.n_classes() * C::spec_n_values(),
                total <= 40320 * 40320,
                dist@.len() == total,
                gd.len() == total,
                wit.len() == total,
                dist@[0] is Some,
                gd[0] == 0,
                forall|i: int|
                    0 <= i < moveset@.len() ==> ((R::needs_dr() || C::needs_dr())
                        ==> (#[trigger] moveset@[i]).is_drud_move()),
                forall|i: int|
                    0 <= i < q@.len() ==> admissible(R::needs_dr(), (#[trigger] q@[i]).0)
                        && admissible(C::needs_dr(), q@[i].0),
                forall|i: int|
                    0 <= i < q@.len() ==> (#[trigger] q@[i]).1 + count_none(dist@, total as int)
                        < total,
                forall|i: int|
                    0 <= i < q@.len() ==> reached::<R>(rsym, moveset@, (#[trigger] q@[i]).0, q@[i].1 as nat),
                forall|i: int| 0 <= i < q@.len() ==> front <= (#[trigger] q@[i]).1 <= front + 1,
                forall|i: int, j: int|
                    0 <= i < j < q@.len() ==> (#[trigger] q@[i]).1 <= (#[trigger] q@[j]).1,
                forall|x: int|
                    0 <= x < total && (#[trigger] dist@[x]) is Some ==> Self::entry_witnessed(
                        rsym,
                        moveset@,
                        x,
                        dist@[x].unwrap(),
                    ),
                forall|x: int|
                    0 <= x < total && (#[trigger] dist@[x]) is Some ==> {
                        &&& dist@[x] == Some(gd[x] as u8)
                        &&& gd[x] <= front + 1
                        &&& Self::witness_ok(rsym, moveset@, x, gd[x], wit[x])
                        &&& (Self::moves_within(rsym, moveset@, dist@, gd, wit[x], gd[x])
                            || queued(q@, wit[x], gd[x]))
                    },
            ensures
                q@.len() == 0,
            decreases 2 * count_none(dist@, total as int) + q@.len(),
        {
            let ghost m0 = 2 * count_none(dist@, total as int) + q@.len();
            let ghost q0 = q@;
            match q.pop_front() {
                None => {
                    break ;
                },
                Some((a, d)) => {
                    proof {
                        assert(admissible(R::needs_dr(), a) && admissible(C::needs_dr(), a));
                        lemma_count_none_bound(dist@, total as int);
                        assert(q0[0] == (a, d));
                        assert forall|i: int| 0 <= i < q@.len() implies d <= (#[trigger] q@[i]).1 <= d + 1 by {
                            assert(q@[i] == q0[i + 1]);
                            assert(q0[0].1 <= q0[i + 1].1);
                        }
                        assert forall|i: int, j: int| 0 <= i < j < q@.len() implies (#[trigger] q@[i]).1 <= (#[trigger] q@[j]).1 by {
                            assert(q@[i] == q0[i + 1]);
                            assert(q@[j] == q0[j + 1]);
                        }
                        assert forall|x: int| 0 <= x < total && (#[trigger] dist@[x]) is Some implies
                            (Self::moves_within(rsym, moveset@, dist@, gd, wit[x], gd[x])
                                || queued(q@, wit[x], gd[x]) || (wit[x] == a && gd[x] == d)) by {
                            if queued(q0, wit[x], gd[x]) {
                                lemma_queued_pop(q0, wit[x], gd[x]);
                            }
                        }
                        front = d as nat;
                    }
                    let mut k: usize = 0;
                    while k < moveset.len()
                        invariant
                            R::reducible(),
                            rsym.wf(),
                            n_c == C::spec_n_values(),
                            total == rsym.n_classes() * C::spec_n_values(),
                            total <= 40320 * 40320,
                            dist@.len() == total,
                            gd.len() == total,
                            wit.len() == total,
                            dist@[0] is Some,
                            gd[0] == 0,
                            front == d,
                            forall|i: int|
                                0 <= i < moveset@.len() ==> ((R::needs_dr() || C::needs_dr())
                                    ==> (#[trigger] moveset@[i]).is_drud_move()),
                            admissible(R::needs_dr(), a),
                            admissible(C::needs_dr(), a),
                            d + count_none(dist@, total as int) < total,
                            forall|i: int|
                                0 <= i < q@.len() ==> admissible(R::needs_dr(), (#[trigger] q@[i]).0)
                                    && admissible(C::needs_dr(), q@[i].0),
                            forall|i: int|
                                0 <= i < q@.len() ==> (#[trigger] q@[i]).1 + count_none(
                                    dist@,
                                    total as int,
                                ) < total,
                            2 * count_none(dist@, total as int) + q@.len() < m0,
                            reached::<R>(rsym, moveset@, a, d as nat),
                            forall|i: int|
                                0 <= i < q@.len() ==> reached::<R>(rsym, moveset@, (#[trigger] q@[i]).0, q@[i].1 as nat),
                            forall|i: int| 0 <= i < q@.len() ==> d <= (#[trigger] q@[i]).1 <= d + 1,
                            forall|i: int, j: int|
                                0 <= i < j < q@.len() ==> (#[trigger] q@[i]).1 <= (#[trigger] q@[j]).1,
                            forall|x: int|
                                0 <= x < total && (#[trigger] dist@[x]) is Some ==> Self::entry_witnessed(
                                    rsym,
                                    moveset@,
                                    x,
                                    dist@[x].unwrap(),
                                ),
                            forall|k2: int|
                                0 <= k2 < k ==> #[trigger] Self::step_within(
                                    rsym,
                                    dist@,
                                    gd,
                                    after_move(a, moveset@[k2]),
                                    d as nat,
                                ),
                            forall|x: int|
                                0 <= x < total && (#[trigger] dist@[x]) is Some ==> {
                                    &&& dist@[x] == Some(gd[x] as u8)
                                    &&& gd[x] <= d + 1
                                    &&& Self::witness_ok(rsym, moveset@, x, gd[x], wit[x])
                                    &&& (Self::moves_within(rsym, moveset@, dist@, gd, wit[x], gd[x])
                                        || queued(q@, wit[x], gd[x]) || (wit[x] == a && gd[x] == d))
                                },
                        decreases moveset@.len() - k,
                    {
                        let m = moveset[k];
                        let moved = a.apply_move(m);
                        proof {
                            if R::needs_dr() || C::needs_dr() {
                                assert(moveset@[k as int].is_drud_move());
                            }
                        }
                        let b = rsym.canonicalize(&moved);
                        proof {
                            assert(moveset@.contains(m)) by {
                                assert(moveset@[k as int] == m);
                            }
                            lemma_reached_step::<R>(rsym, moveset@, a, m, d as nat, b);
                            assert((d as nat + 1) == (d + 1) as nat);
                        }
                        let b_coord = Self::coord_no_canonicalize(&rsym, &b);
                        if dist[b_coord].is_none() {
                            let syms = rsym.self_syms(&b);
                            let ghost kb = rsym.class_of(R::spec_index(b) as int);
                            proof {
                                assert(rsym.entry_ok(R::spec_index(b) as int));
                                assert(rsym.class_ok(kb));
                                let rep = rsym.rep_of(kb);
                                R::lemma_identity_first();
                                R::lemma_conj_identity(rep, R::spec_syms()[0]);
                                assert(sym_reaches::<R>(rep, 0, R::spec_index(rep) as int));
                                Sym::lemma_code_of(0);
                            }
                            let ghost none0 = count_none(dist@, total as int);
                            let mut j: usize = 0;
                            while j < syms.len()
                                invariant
                                    rsym.wf(),
                                    n_c == C::spec_n_values(),
                                    total == rsym.n_classes() * C::spec_n_values(),
                                    total <= 40320 * 40320,
                                    dist@.len() == total,
                                    gd.len() == total,
                                    wit.len() == total,
                                    dist@[0] is Some,
                                    gd[0] == 0,
                                    admissible(R::needs_dr(), b),
                                    admissible(C::needs_dr(), b),
                                    b_coord == Self::coord_of(rsym, b),
                                    b_coord < total,
                                    syms@.len() >= 1,
                                    syms@[0] == Sym::from_code(0),
                                    Sym::from_code(0).code() == 0,
                                    forall|i: int| 0 <= i < syms@.len() ==> (#[trigger] syms@[i]).valid(),
                                    j > 0 ==> dist@[b_coord as int] is Some,
                                    j > 0 ==> gd[b_coord as int] == d + 1,
                                    j == 0 ==> dist@[b_coord as int] is None,
                                    j == 0 ==> count_none(dist@, total as int) == none0,
                                    count_none(dist@, total as int) <= none0,
                                    j > 0 ==> count_none(dist@, total as int) < none0,
                                    d + none0 < total,
                                    reached::<R>(rsym, moveset@, b, (d + 1) as nat),
                                    forall|x: int|
                                        0 <= x < total && (#[trigger] dist@[x]) is Some ==> Self::entry_witnessed(
                                            rsym,
                                            moveset@,
                                            x,
                                            dist@[x].unwrap(),
                                        ),
                                    forall|k2: int|
                                        0 <= k2 < k ==> #[trigger] Self::step_within(
                                            rsym,
                                            dist@,
                                            gd,
                                            after_move(a, moveset@[k2]),
                                            d as nat,
                                        ),
                                    forall|x: int|
                                        0 <= x < total && (#[trigger] dist@[x]) is Some ==> {
                                            &&& dist@[x] == Some(gd[x] as u8)
                                            &&& gd[x] <= d + 1
                                            &&& Self::witness_ok(rsym, moveset@, x, gd[x], wit[x])
                                            &&& (Self::moves_within(rsym, moveset@, dist@, gd, wit[x], gd[x])
                                                || queued(q@, wit[x], gd[x]) || (wit[x] == a && gd[x] == d)
                                                || (wit[x] == b && gd[x] == d + 1))
                                        },
                                decreases syms@.len() - j,
                            {
                                let s = syms[j];
                                let c = C::conj(&b, s);
                                proof {
                                    if j == 0 {
                                        C::lemma_conj_identity(b, s);
                                    }
                                }
                                let c_coord = Self::coord_no_canonicalize(&rsym, &c);
                                if dist[c_coord].is_none() {
                                    let v: u8 = #[verifier::truncate] ((d + 1) as u8);
                                    let ghost dist0 = dist@;
                                    let ghost gd0 = gd;
                                    let ghost n1 = (d + 1) as nat;
                                    proof {
                                        lemma_count_none_set(dist@, c_coord as int, v, total as int);
                                        assert(Self::entry_witnessed(rsym, moveset@, c_coord as int, v)) by {
                                            assert(v == n1 as u8);
                                            assert(reached::<R>(rsym, moveset@, b, n1) && c_coord
                                                == Self::coord_of(rsym, C::spec_conj(b, s)));
                                        }
                                    }
                                    dist.set(c_coord, Some(v));
                                    proof {
                                        gd = gd.update(c_coord as int, n1);
                                        wit = wit.update(c_coord as int, b);
                                        assert(v == gd[c_coord as int] as u8);
                                        assert(c_coord == Self::coord_of(rsym, C::spec_conj(b, s)));
                                        assert(Self::witness_ok(rsym, moveset@, c_coord as int, n1, b));
                                        assert forall|k2: int| 0 <= k2 < k implies #[trigger] Self::step_within(
                                            rsym,
                                            dist@,
                                            gd,
                                            after_move(a, moveset@[k2]),
                                            d as nat,
                                        ) by {
                                            assert(Self::step_within(rsym, dist0, gd0, after_move(a, moveset@[k2]), d as nat));
                                        }
                                        assert forall|x: int| 0 <= x < total && (#[trigger] dist@[x]) is Some implies {
                                            &&& dist@[x] == Some(gd[x] as u8)
                                            &&& gd[x] <= d + 1
                                            &&& Self::witness_ok(rsym, moveset@, x, gd[x], wit[x])
                                            &&& (Self::moves_within(rsym, moveset@, dist@, gd, wit[x], gd[x])
                                                || queued(q@, wit[x], gd[x]) || (wit[x] == a && gd[x] == d)
                                                || (wit[x] == b && gd[x] == d + 1))
                                        } by {
                                            if x != c_coord {
                                                assert(dist0[x] is Some);
                                                if Self::moves_within(rsym, moveset@, dist0, gd0, wit[x], gd[x]) {
                                                    Self::lemma_within_grow(rsym, moveset@, dist0, gd0, dist@, gd, wit[x], gd[x]);
                                                }
                                            }
                                        }
                                    }
                                }
                                j = j + 1;
                            }
                            proof {
                                lemma_count_none_bound(dist@, total as int);
                            }
                            let ghost qb = q@;
                            q.push_back((b, d + 1));
                            proof {
                                assert(q@[q@.len() - 1] == (b, (d + 1) as usize));
                                assert(queued(q@, b, (d + 1) as nat));
                                assert forall|x: int| 0 <= x < total && (#[trigger] dist@[x]) is Some implies
                                    (Self::moves_within(rsym, moveset@, dist@, gd, wit[x], gd[x])
                                        || queued(q@, wit[x], gd[x]) || (wit[x] == a && gd[x] == d)) by {
                                    if queued(qb, wit[x], gd[x]) {
                                        lemma_queued_push(qb, (b, (d + 1) as usize), wit[x], gd[x]);
                                    }
                                }
                                assert forall|i: int| 0 <= i < q@.len() implies d <= (#[trigger] q@[i]).1 <= d + 1 by {
                                    if i < qb.len() {
                                        assert(q@[i] == qb[i]);
                                    }
                                }
                                assert forall|i: int, j2: int| 0 <= i < j2 < q@.len() implies (#[trigger] q@[i]).1 <= (#[trigger] q@[j2]).1 by {
                                    assert(q@[i] == qb[i]);
                                    if j2 < qb.len() {
                                        assert(q@[j2] == qb[j2]);
                                    }
                                }
                            }
                        }
                        proof {
                            assert(b == Self::canonical(rsym, after_move(a, moveset@[k as int])));
                            assert(Self::step_within(rsym, dist@, gd, after_move(a, moveset@[k as int]), d as nat));
                        }
                        k = k + 1;
                    }
                    proof {
                        assert(Self::moves_within(rsym, moveset@, dist@, gd, a, d as nat));
                    }
                },
            }
        }
        let mut out: Vec<u8> = Vec::new();
        let mut x: usize = 0;
        while x < total
            invariant
                x <= total,
                dist@.len() == total,
                gd.len() == total,
                wit.len() == total,
                out@.len() == x,
                forall|y: int| 0 <= y < x ==> dist@[y] == Some(#[trigger] out@[y]),
                forall|y: int|
                    0 <= y < total && (#[trigger] dist@[y]) is Some ==> Self::entry_witnessed(
                        rsym,
                        moveset@,
                        y,
                        dist@[y].unwrap(),
                    ),
                forall|y: int|
                    0 <= y < total && (#[trigger] dist@[y]) is Some ==> {
                        &&& dist@[y] == Some(gd[y] as u8)
                        &&& Self::witness_ok(rsym, moveset@, y, gd[y], wit[y])
                        &&& Self::moves_within(rsym, moveset@, dist@, gd, wit[y], gd[y])
                    },
            decreases total - x,
        {
            match dist[x] {
                Some(v) => out.push(v),
                None => {
                    return None;
                },
            }
            x = x + 1;
        }
        let t = PrunTable { rsym, dist: out, depth: Ghost(gd), _r: PhantomData, _c: PhantomData };
        proof {
            assert forall|y: int| 0 <= y < t.n_entries() implies #[trigger] Self::entry_witnessed(
                t.table(),
                moveset@,
                y,
                t.dist_at(y),
            ) by {
                assert(dist@[y] == Some(out@[y]));
            }
            assert forall|y: int| 0 <= y < t.n_entries() implies #[trigger] t.entry_settled(moveset@, y) by {
                assert(dist@[y] == Some(out@[y]));
                let b = wit[y];
                assert(Self::witness_ok(t.table(), moveset@, y, t.depth_at(y), b));
                assert forall|k: int| 0 <= k < moveset@.len() implies #[trigger] t.depth_at(
                    Self::coord_of(t.table(), Self::canonical(t.table(), after_move(b, moveset@[k]))),
                ) <= t.depth_at(y) + 1 by {
                    assert(Self::step_within(rsym, dist@, gd, after_move(b, moveset@[k]), gd[y]));
                }
            }
        }
        Some(t)
    }

    /// Given a cube, produce a lower bound on the number of moves to reduce the coordinate
    /// to 0: the stored distance of its composite coordinate.
    pub fn eval(&self, c: &Cube) -> (r: i32)
        requires
            self.wf(),
            admissible(R::needs_dr(), *c),
            admissible(C::needs_dr(), *c),
        ensures
            r == self.dist_at(Self::coord_of(self.table(), Self::canonical(self.table(), *c))),
            0 <= r < 256,
    {
        let coord = Self::coord(&self.rsym, c);
        self.dist[coord] as i32
    }

    /// Compute the symmetry-reduced composite coordinate.
    fn coord(rsym: &SymTable<R>, c: &Cube) -> (r: usize)
        requires
            rsym.wf(),
            admissible(R::needs_dr(), *c),
            admissible(C::needs_dr(), *c),
        ensures
            r == Self::coord_of(*rsym, Self::canonical(*rsym, *c)),
            r < rsym.n_classes() * C::spec_n_values(),
    {
        let c = rsym.canonicalize(c);
        Self::coord_no_canonicalize(rsym, &c)
    }

    /// Compute the symmetry-reduced composite coordinate for a cube which already has its
    /// symmetry-reduced coordinate canonicalized.
    fn coord_no_canonicalize(rsym: &SymTable<R>, c: &Cube) -> (r: usize)
        requires
            rsym.wf(),
            admissible(R::needs_dr(), *c),
            admissible(C::needs_dr(), *c),
        ensures
            r == Self::coord_of(*rsym, *c),
            r < rsym.n_classes() * C::spec_n_values(),
            R::spec_index(*c) < R::spec_n_values(),
            C::spec_index(*c) < C::spec_n_values(),
    {
        proof {
            R::lemma_n_values();
            C::lemma_n_values();
        }
        let ri = R::index(c);
        let r = rsym.conj_class(ri);
        let ci = C::index(c);
        let n = C::n_values();
        proof {
            assert(r * n + ci < rsym.n_classes() * n) by (nonlinear_arith)
                requires
                    r < rsym.n_classes(),
                    ci < n,
            ;
            assert(rsym.n_classes() * n <= 40320 * 40320) by (nonlinear_arith)
                requires
                    rsym.n_classes() <= 40320,
                    n <= 40320,
            ;
        }
        r * n + ci
    }

    /// Decompose the coordinate into its symmetry-composed and basic component, respectively.
    fn decompose_coord(coord: usize) -> (r: (usize, usize))
        ensures
            r.0 == coord as nat / C::spec_n_values(),
            r.1 == coord as nat % C::spec_n_values(),
    {
        proof {
            C::lemma_n_values();
        }
        let n = C::n_values();
        (coord / n, coord % n)
    }
}

proof fn lemma_count_none_all(s: Seq<Option<u8>>, n: int)
    requires
        0 <= n <= s.len(),
        forall|x: int| 0 <= x < n ==> #[trigger] s[x] is None,
    ensures
        count_none(s, n) == n,
    decreases n,
{
    if n > 0 {
        lemma_count_none_all(s, n - 1);
    }
}

} // verus!
