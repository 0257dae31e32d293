//! Two-phase search: iterative deepening into the DR subgroup, then to the solved cube,
//! pruned by the distance tables and stopped by a time limit.
use std::time::Instant;
use vstd::prelude::*;

use crate::coord::co::CoordCO;
use crate::coord::cp::CoordCP;
use crate::coord::eo::CoordEO;
use crate::coord::ep::CoordEP;
use crate::coord::eslice::{lemma_rank_zero_keeps_eslice, CoordESlice};
use crate::coord::eslice_ep::CoordESliceEP;
use crate::bitset::comb_rank;
use crate::cube::{after_move, after_moves, eslice_mask, keeps_eslice, Cube};
use crate::mov::Move;
use crate::pruning::PrunTable;

verus! {

/// std's `Instant`, carried as an opaque value: the time the search started.
#[verifier::external_type_specification]
#[verifier::external_body]
pub struct ExInstant(Instant);

/// Nanoseconds elapsed since `start`: `Instant::elapsed` read as a whole number of
/// nanoseconds (`Duration::as_nanos`). The result depends on the clock, so nothing is
/// stated of it.
#[verifier::external_body]
fn elapsed_nanos(start: &Instant) -> u128 {
    start.elapsed().as_nanos()
}

/// Margin kept before the time limit, in nanoseconds (50 ms).
pub const MARGIN_NANOS: u128 = 50_000_000;

/// Whether the search skips `m` right after `last`: `m` turns the same face, or it turns
/// the opposite face and comes earlier in move order (that pair is tried the other way).
pub open spec fn redundant_after(last: Move, m: Move) -> bool {
    ||| last.spec_face() == m.spec_face()
    ||| last.spec_face() == m.spec_face().spec_opposite() && m.spec_index() < last.spec_index()
}

/// The larger of `a` and `b`.
pub open spec fn max_i32(a: i32, b: i32) -> i32 {
    if a >= b {
        a
    } else {
        b
    }
}

/// Whether a search that started `elapsed` nanoseconds ago with limit `time_limit` is out
/// of time: it holds a solution and the limit less the margin (at least 0) has passed.
pub open spec fn time_up(elapsed: u128, time_limit: u128, has_best: bool) -> bool {
    elapsed > (if time_limit >= MARGIN_NANOS {
        time_limit - MARGIN_NANOS
    } else {
        0
    }) && has_best
}

/// Decide from a clock reading whether the search is out of time (see `time_up`).
pub fn time_up_exec(elapsed: u128, time_limit: u128, has_best: bool) -> (r: bool)
    ensures
        r == time_up(elapsed, time_limit, has_best),
{
    let limit = if time_limit >= MARGIN_NANOS {
        time_limit - MARGIN_NANOS
    } else {
        0
    };
    elapsed > limit && has_best
}

/// No move of `s` is redundant after the move before it (in particular no two neighbouring
/// moves turn the same face).
pub open spec fn no_redundant(s: Seq<Move>) -> bool {
    forall|k: int| 0 <= k < s.len() - 1 ==> !redundant_after(#[trigger] s[k], s[k + 1])
}

/// Appending a move that is not redundant after the last one keeps `no_redundant`.
proof fn lemma_no_redundant_push(s: Seq<Move>, m: Move)
    requires
        no_redundant(s),
        s.len() > 0 ==> !redundant_after(s.last(), m),
    ensures
        no_redundant(s.push(m)),
{
    let t = s.push(m);
    assert forall|k: int| 0 <= k < t.len() - 1 implies !redundant_after(#[trigger] t[k], t[k + 1]) by {
        if k < s.len() - 1 {
            assert(t[k] == s[k] && t[k + 1] == s[k + 1]);
        } else {
            assert(t[k] == s.last() && t[k + 1] == m);
        }
    }
}

/// Whether the search skips `m` when the move before it is `last`.
pub open spec fn skipped(last: Option<Move>, m: Move) -> bool {
    last matches Some(l) && redundant_after(l, m)
}

/// The second-phase bound of `c`: the larger of the entries of the two tables.
pub open spec fn fin_bound(
    cp: PrunTable<CoordCP, CoordESliceEP>,
    ep: PrunTable<CoordEP, CoordESliceEP>,
    c: Cube,
) -> i32 {
    max_i32(
        cp.dist_at(
            PrunTable::<CoordCP, CoordESliceEP>::coord_of(
                cp.table(),
                PrunTable::<CoordCP, CoordESliceEP>::canonical(cp.table(), c),
            ),
        ) as i32,
        ep.dist_at(
            PrunTable::<CoordEP, CoordESliceEP>::coord_of(
                ep.table(),
                PrunTable::<CoordEP, CoordESliceEP>::canonical(ep.table(), c),
            ),
        ) as i32,
    )
}

/// The first-phase bound of `c`: the larger of the entries of the corner orientation /
/// E-slice table and the edge orientation / E-slice table.
pub open spec fn dr_bound(
    co: PrunTable<CoordCO, CoordESlice>,
    eo: PrunTable<CoordEO, CoordESlice>,
    c: Cube,
) -> i32 {
    max_i32(
        co.dist_at(
            PrunTable::<CoordCO, CoordESlice>::coord_of(
                co.table(),
                PrunTable::<CoordCO, CoordESlice>::canonical(co.table(), c),
            ),
        ) as i32,
        eo.dist_at(
            PrunTable::<CoordEO, CoordESlice>::coord_of(
                eo.table(),
                PrunTable::<CoordEO, CoordESlice>::canonical(eo.table(), c),
            ),
        ) as i32,
    )
}

/// `k` more moves of the DR subgroup solve `c` along a path that the second phase tries:
/// no move is skipped after the one before it (`last` before the first), and before each
/// move the bound of the cube is at most the number of moves left.
pub open spec fn fin_reaches(
    cp: PrunTable<CoordCP, CoordESliceEP>,
    ep: PrunTable<CoordEP, CoordESliceEP>,
    c: Cube,
    k: nat,
    last: Option<Move>,
) -> bool
    decreases k,
{
    if k == 0 {
        c.spec_is_solved()
    } else {
        &&& fin_bound(cp, ep, c) <= k
        &&& exists|m: Move|
            #![trigger after_move(c, m)]
            m.is_drud_move() && !skipped(last, m) && fin_reaches(
                cp,
                ep,
                after_move(c, m),
                (k - 1) as nat,
                Some(m),
            )
    }
}

/// The cube is in the DR subgroup: edges and corners oriented, E-slice edges in the E
/// slice.
pub open spec fn in_dr(c: Cube) -> bool {
    c.eo.0 == 0 && c.co.0 == 0 && comb_rank(c.ep.unordered_image(eslice_mask()), 16) == 0
}

/// `k` more moves, then `f` moves of the second phase, solve `c` along a path that the
/// search tries: no move is skipped after the one before it, before each first-phase move
/// the first-phase bound is at most the moves left, the cube reached after the `k` moves is
/// in the DR subgroup, and the second phase reaches solved from there.
pub open spec fn dr_reaches(
    co: PrunTable<CoordCO, CoordESlice>,
    eo: PrunTable<CoordEO, CoordESlice>,
    cp: PrunTable<CoordCP, CoordESliceEP>,
    ep: PrunTable<CoordEP, CoordESliceEP>,
    c: Cube,
    k: nat,
    last: Option<Move>,
    f: nat,
) -> bool
    decreases k,
{
    if k == 0 {
        in_dr(c) && fin_reaches(cp, ep, c, f, last)
    } else {
        &&& dr_bound(co, eo, c) <= k
        &&& exists|m: Move|
            #![trigger after_move(c, m)]
            !skipped(last, m) && dr_reaches(co, eo, cp, ep, after_move(c, m), (k - 1) as nat, Some(m), f)
    }
}

/// Search state of the two-phase solver.
pub struct Solver<'a> {
    pub start: Instant,
    /// Time limit in nanoseconds.
    pub time_limit: u128,
    pub best: Option<Vec<Move>>,
    pub stack_dr: Vec<Move>,
    pub stack_fin: Vec<Move>,
    /// Distances to DR: corner orientation with the E-slice edges' locations.
    pub pt_co: &'a PrunTable<CoordCO, CoordESlice>,
    /// Distances to DR: edge orientation with the E-slice edges' locations.
    pub pt_eo: &'a PrunTable<CoordEO, CoordESlice>,
    /// Distances to solved within DR: corner permutation with E-slice permutation.
    pub pt_cp: &'a PrunTable<CoordCP, CoordESliceEP>,
    /// Distances to solved within DR: edge permutation with E-slice permutation.
    pub pt_ep: &'a PrunTable<CoordEP, CoordESliceEP>,
    pub time_count: usize,
    pub time_over: bool,
}

impl<'a> Solver<'a> {
    /// The tables are built and the time limit leaves room for the margin.
    pub open spec fn ready(self) -> bool {
        &&& self.pt_co.wf()
        &&& self.pt_eo.wf()
        &&& self.pt_cp.wf()
        &&& self.pt_ep.wf()
        &&& self.time_limit >= MARGIN_NANOS
    }

    /// The best solution found, if any, solves `root`.
    pub open spec fn best_solves(self, root: Cube) -> bool {
        self.best matches Some(b) ==> after_moves(root, b@).spec_is_solved()
    }

    /// The solution held is the one held by `before`, or one that solves `root`.
    pub open spec fn kept_or_solves(self, before: Self, root: Cube) -> bool {
        self.best == before.best || self.best_solves(root)
    }

    /// A solution held before is still held, or one no longer than it.
    pub open spec fn no_worse(self, before: Self) -> bool {
        before.best matches Some(b0) ==> (self.best matches Some(b1) && b1@.len() <= b0@.len())
    }

    /// The search has run out of time, or holds a solution of at most `bound` moves.
    pub open spec fn found(self, bound: int) -> bool {
        self.time_over || (self.best matches Some(b) && b@.len() <= bound)
    }

    /// What was found stays found: a later state with a solution no worse, and out of time
    /// if the earlier one was.
    proof fn lemma_found_kept(self, later: Self, bound: int, bound2: int)
        requires
            self.found(bound),
            bound <= bound2,
            later.no_worse(self),
            self.time_over ==> later.time_over,
        ensures
            later.found(bound2),
    {
    }

    /// The solution held is the one held by `before`, or a strictly shorter one that starts
    /// with `prefix` and has no move redundant after the move before it.
    pub open spec fn improved_from(self, before: Self, prefix: Seq<Move>) -> bool {
        ||| self.best == before.best
        ||| self.best matches Some(b) && prefix.len() <= b@.len() && b@.subrange(
            0,
            prefix.len() as int,
        ) == prefix && no_redundant(b@) && (before.best matches Some(o) ==> b@.len()
            < o@.len())
    }

    /// Improvements compose, keeping the shorter prefix.
    proof fn lemma_improved_trans(a: Self, b: Self, c: Self, p: Seq<Move>, p2: Seq<Move>)
        requires
            b.improved_from(a, p),
            c.improved_from(b, p2),
            p.len() <= p2.len(),
            p2.subrange(0, p.len() as int) == p,
        ensures
            c.improved_from(a, p),
    {
        if c.best != b.best {
            let bb = c.best.unwrap();
            assert(bb@.subrange(0, p.len() as int) =~= bb@.subrange(0, p2.len() as int).subrange(
                0,
                p.len() as int,
            ));
        }
    }

    /// The parts of the state that the search does not change.
    pub open spec fn same_setup(self, other: Self) -> bool {
        &&& self.start == other.start
        &&& self.time_limit == other.time_limit
        &&& self.pt_co == other.pt_co
        &&& self.pt_eo == other.pt_eo
        &&& self.pt_cp == other.pt_cp
        &&& self.pt_ep == other.pt_ep
    }

    /// Check the clock every 32 calls; once over the limit (less the margin) with a
    /// solution in hand, stay over.
    pub fn time_over(&mut self) -> (r: bool)
        ensures
            r == final(self).time_over,
            old(self).time_over ==> r,
            r ==> old(self).time_over || old(self).best is Some,
            old(self).time_count % 32 != 0 ==> r == old(self).time_over,
            !old(self).time_over && old(self).time_count % 32 == 0 ==> exists|elapsed: u128|
                r == #[trigger] time_up(elapsed, old(self).time_limit, old(self).best is Some),
            final(self).time_count == old(self).time_count.wrapping_add(1),
            final(self).same_setup(*old(self)),
            final(self).best == old(self).best,
            final(self).stack_dr == old(self).stack_dr,
            final(self).stack_fin == old(self).stack_fin,
    {
        if !self.time_over && self.time_count % 32 == 0 {
            let elapsed = elapsed_nanos(&self.start);
            self.apply_clock(elapsed);
        }
        self.time_count = self.time_count.wrapping_add(1);
        self.time_over
    }

    /// Take a clock reading of `elapsed` nanoseconds since the start: the search is over
    /// once it holds a solution and the time limit, less the margin, has passed.
    pub fn apply_clock(&mut self, elapsed: u128)
        ensures
            final(self).time_over == (old(self).time_over || time_up(
                elapsed,
                old(self).time_limit,
                old(self).best is Some,
            )),
            final(self).time_count == old(self).time_count,
            final(self).same_setup(*old(self)),
            final(self).best == old(self).best,
            final(self).stack_dr == old(self).stack_dr,
            final(self).stack_fin == old(self).stack_fin,
    {
        let up = time_up_exec(elapsed, self.time_limit, self.best.is_some());
        self.time_over = self.time_over || up;
    }

    /// The last move of the current move sequence.
    fn last_move(&self) -> (r: Option<Move>)
        ensures
            r == (if self.stack_fin@.len() > 0 {
                Some(self.stack_fin@.last())
            } else if self.stack_dr@.len() > 0 {
                Some(self.stack_dr@.last())
            } else {
                None
            }),
    {
        if self.stack_fin.len() > 0 {
            Some(self.stack_fin[self.stack_fin.len() - 1])
        } else if self.stack_dr.len() > 0 {
            Some(self.stack_dr[self.stack_dr.len() - 1])
        } else {
            None
        }
    }

    /// Whether `m` is skipped after the current last move.
    fn skip(&self, m: Move) -> (r: bool)
        ensures
            r == (self.last_of() matches Some(last) && redundant_after(last, m)),
    {
        match self.last_move() {
            Some(last) => last.cancels_with(&m) || last.commutes_with(&m) && m.index()
                < last.index(),
            None => false,
        }
    }

    /// The last move of the current move sequence.
    pub open spec fn last_of(self) -> Option<Move> {
        if self.stack_fin@.len() > 0 {
            Some(self.stack_fin@.last())
        } else if self.stack_dr@.len() > 0 {
            Some(self.stack_dr@.last())
        } else {
            None
        }
    }

    /// Lower bound on the moves from a cube to the DR subgroup.
    fn eval_drud(&self, c: &Cube) -> (r: i32)
        requires
            self.ready(),
            c.wf(),
        ensures
            r == dr_bound(*self.pt_co, *self.pt_eo, *c),
            0 <= r < 256,
    {
        let a = self.pt_co.eval(c);
        let b = self.pt_eo.eval(c);
        if a >= b {
            a
        } else {
            b
        }
    }

    /// Lower bound on the moves from a DR cube to solved.
    fn eval_fin(&self, c: &Cube) -> (r: i32)
        requires
            self.ready(),
            c.wf(),
            keeps_eslice(c.ep),
        ensures
            r == max_i32(
                self.pt_cp.dist_at(
                    PrunTable::<CoordCP, CoordESliceEP>::coord_of(
                        self.pt_cp.table(),
                        PrunTable::<CoordCP, CoordESliceEP>::canonical(self.pt_cp.table(), *c),
                    ),
                ) as i32,
                self.pt_ep.dist_at(
                    PrunTable::<CoordEP, CoordESliceEP>::coord_of(
                        self.pt_ep.table(),
                        PrunTable::<CoordEP, CoordESliceEP>::canonical(self.pt_ep.table(), *c),
                    ),
                ) as i32,
            ),
            0 <= r < 256,
    {
        let a = self.pt_cp.eval(c);
        let b = self.pt_ep.eval(c);
        if a >= b {
            a
        } else {
            b
        }
    }

    /// Search the second phase: extend `stack_fin` with moves of the DR subgroup up to
    /// `fin_len` moves, recording a solution when the cube is solved.
    fn solve_fin(&mut self, c: Cube, fin_len: i32, Ghost(root): Ghost<Cube>)
        requires
            old(self).ready(),
            c.wf(),
            keeps_eslice(c.ep),
            c == after_moves(root, old(self).stack_dr@ + old(self).stack_fin@),
            0 <= old(self).stack_fin@.len() <= fin_len <= i32::MAX - 256,
            old(self).stack_dr@.len() + fin_len <= usize::MAX,
            no_redundant(old(self).stack_dr@ + old(self).stack_fin@),
        ensures
            final(self).same_setup(*old(self)),
            final(self).stack_dr == old(self).stack_dr,
            final(self).stack_fin@ == old(self).stack_fin@,
            final(self).kept_or_solves(*old(self), root),
            final(self).no_worse(*old(self)),
            old(self).time_over ==> final(self).time_over,
            final(self).time_over ==> old(self).time_over || final(self).best is Some,
            final(self).improved_from(*old(self), old(self).stack_dr@ + old(self).stack_fin@),
            final(self).best != old(self).best ==> (final(self).best matches Some(b) && b@.len()
                == old(self).stack_dr@.len() + fin_len),
            fin_reaches(
                *old(self).pt_cp,
                *old(self).pt_ep,
                c,
                (fin_len - old(self).stack_fin@.len()) as nat,
                old(self).last_of(),
            ) ==> final(self).found(old(self).stack_dr@.len() + fin_len),
        decreases fin_len - old(self).stack_fin@.len(),
    {
        let ghost cp = *self.pt_cp;
        let ghost ep = *self.pt_ep;
        let ghost kk = (fin_len - self.stack_fin@.len()) as nat;
        let ghost last = self.last_of();
        let ghost bound = self.stack_dr@.len() + fin_len;
        if self.time_over() {
            return;
        }
        if self.stack_fin.len() as i32 == fin_len {
            if c.is_solved() {
                let sol_len = self.stack_dr.len() + fin_len as usize;
                let better = match &self.best {
                    None => true,
                    Some(best) => best.len() > sol_len,
                };
                if better {
                    let mut alg: Vec<Move> = Vec::new();
                    let mut i: usize = 0;
                    while i < self.stack_dr.len()
                        invariant
                            i <= self.stack_dr@.len(),
                            alg@ == self.stack_dr@.subrange(0, i as int),
                        decreases self.stack_dr@.len() - i,
                    {
                        alg.push(self.stack_dr[i]);
                        i = i + 1;
                    }
                    let mut i: usize = 0;
                    while i < self.stack_fin.len()
                        invariant
                            i <= self.stack_fin@.len(),
                            alg@ == self.stack_dr@ + self.stack_fin@.subrange(0, i as int),
                        decreases self.stack_fin@.len() - i,
                    {
                        alg.push(self.stack_fin[i]);
                        i = i + 1;
                    }
                    proof {
                        assert(alg@ =~= self.stack_dr@ + self.stack_fin@);
                        assert(alg@.subrange(0, alg@.len() as int) =~= alg@);
                    }
                    self.best = Some(alg);
                }
            }
            return;
        }
        if self.stack_fin.len() as i32 + self.eval_fin(&c) > fin_len {
            return;
        }
        let moves = Move::drud_moveset();
        let mut k: usize = 0;
        while k < moves.len()
            invariant
                self.ready(),
                self.same_setup(*old(self)),
                self.stack_dr == old(self).stack_dr,
                self.stack_fin@ == old(self).stack_fin@,
                self.kept_or_solves(*old(self), root),
                self.no_worse(*old(self)),
                old(self).time_over ==> self.time_over,
                self.time_over ==> old(self).time_over || self.best is Some,
                self.improved_from(*old(self), old(self).stack_dr@ + old(self).stack_fin@),
                self.best != old(self).best ==> (self.best matches Some(b) && b@.len()
                    == old(self).stack_dr@.len() + fin_len),
                no_redundant(old(self).stack_dr@ + old(self).stack_fin@),
                cp == *self.pt_cp,
                ep == *self.pt_ep,
                kk == fin_len - self.stack_fin@.len(),
                k <= moves@.len(),
                kk >= 1,
                last == self.last_of(),
                bound == self.stack_dr@.len() + fin_len,
                forall|m: Move| m.is_drud_move() ==> moves@.contains(m),
                self.found(bound) || forall|j: int|
                    0 <= j < k ==> !(!skipped(last, #[trigger] moves@[j]) && fin_reaches(
                        cp,
                        ep,
                        after_move(c, moves@[j]),
                        (kk - 1) as nat,
                        Some(moves@[j]),
                    )),
                c.wf(),
                keeps_eslice(c.ep),
                c == after_moves(root, self.stack_dr@ + self.stack_fin@),
                0 <= self.stack_fin@.len() < fin_len <= i32::MAX - 256,
                self.stack_dr@.len() + fin_len <= usize::MAX,
                moves@.len() == 10,
                forall|i: int| 0 <= i < 10 ==> (#[trigger] moves@[i]).is_drud_move(),
            ensures
                self.found(bound) || k == moves@.len(),
            decreases moves@.len() - k,
        {
            let m = moves[k];
            let done = match &self.best {
                None => false,
                Some(best) => best.len() <= self.stack_dr.len() + fin_len as usize,
            };
            if done {
                break;
            }
            if self.skip(m) {
                k = k + 1;
                continue;
            }
            let next = c.apply_move(m);
            proof {
                assert(moves@[k as int].is_drud_move());
            }
            let ghost before = self.stack_fin@;
            let ghost pre = *self;
            self.stack_fin.push(m);
            proof {
                let s = self.stack_dr@ + self.stack_fin@;
                assert(s.drop_last() =~= self.stack_dr@ + before);
                assert(s.last() == m);
                assert(self.last_of() == Some(m));
                let p0 = old(self).stack_dr@ + old(self).stack_fin@;
                assert(s =~= p0.push(m));
                if p0.len() > 0 {
                    assert(pre.last_of() == Some(p0.last()));
                }
                lemma_no_redundant_push(p0, m);
            }
            let ghost pushed = *self;
            self.solve_fin(next, fin_len, Ghost(root));
            self.stack_fin.pop();
            proof {
                assert(self.stack_fin@ =~= before);
                if pre.found(bound) {
                    pre.lemma_found_kept(*self, bound, bound);
                }
                let p0 = old(self).stack_dr@ + old(self).stack_fin@;
                let p1 = pushed.stack_dr@ + pushed.stack_fin@;
                assert(p1 =~= p0.push(m));
                assert(p1.subrange(0, p0.len() as int) =~= p0);
                Self::lemma_improved_trans(*old(self), pre, *self, p0, p1);
            }
            k = k + 1;
        }
        proof {
            if fin_reaches(cp, ep, c, kk, last) && !self.found(bound) {
                let m = choose|m: Move|
                    #![trigger after_move(c, m)]
                    m.is_drud_move() && !skipped(last, m) && fin_reaches(
                        cp,
                        ep,
                        after_move(c, m),
                        (kk - 1) as nat,
                        Some(m),
                    );
                assert(moves@.contains(m));
                let j = choose|j: int| 0 <= j < moves@.len() && moves@[j] == m;
                assert(!(!skipped(last, moves@[j]) && fin_reaches(
                    cp,
                    ep,
                    after_move(c, moves@[j]),
                    (kk - 1) as nat,
                    Some(moves@[j]),
                )));
            }
        }
    }

    /// Search the first phase: extend `stack_dr` with any moves up to `dr_len` moves; at a
    /// DR cube, run the second phase for each length from 0 to 13.
    fn solve_dr(&mut self, c: Cube, dr_len: i32, Ghost(root): Ghost<Cube>)
        requires
            old(self).ready(),
            c.wf(),
            c == after_moves(root, old(self).stack_dr@),
            old(self).stack_fin@.len() == 0,
            0 <= old(self).stack_dr@.len() <= dr_len <= i32::MAX - 256,
            no_redundant(old(self).stack_dr@),
        ensures
            final(self).same_setup(*old(self)),
            final(self).stack_dr@ == old(self).stack_dr@,
            final(self).stack_fin@.len() == 0,
            final(self).kept_or_solves(*old(self), root),
            final(self).no_worse(*old(self)),
            old(self).time_over ==> final(self).time_over,
            final(self).time_over ==> old(self).time_over || final(self).best is Some,
            final(self).improved_from(*old(self), old(self).stack_dr@),
            final(self).best != old(self).best ==> (final(self).best matches Some(b) && dr_len
                <= b@.len() <= dr_len + 13 && in_dr(after_moves(root, b@.subrange(0, dr_len as int)))),
            forall|f: nat|
                f <= 13 && #[trigger] dr_reaches(
                    *old(self).pt_co,
                    *old(self).pt_eo,
                    *old(self).pt_cp,
                    *old(self).pt_ep,
                    c,
                    (dr_len - old(self).stack_dr@.len()) as nat,
                    old(self).last_of(),
                    f,
                ) ==> final(self).found(dr_len + f),
        decreases dr_len - old(self).stack_dr@.len(),
    {
        let ghost co = *self.pt_co;
        let ghost eo = *self.pt_eo;
        let ghost cp = *self.pt_cp;
        let ghost ep = *self.pt_ep;
        let ghost kk = (dr_len - self.stack_dr@.len()) as nat;
        let ghost last = self.last_of();
        if self.time_over() {
            return;
        }
        if self.stack_dr.len() as i32 == dr_len {
            if c.is_drud() {
                proof {
                    lemma_rank_zero_keeps_eslice(c);
                    assert(self.stack_dr@ + self.stack_fin@ =~= self.stack_dr@);
                }
                let mut target_fin: i32 = 0;
                while target_fin <= 13
                    invariant
                        self.ready(),
                        self.same_setup(*old(self)),
                        self.stack_dr@ == old(self).stack_dr@,
                        self.stack_fin@.len() == 0,
                        self.kept_or_solves(*old(self), root),
                        self.no_worse(*old(self)),
                        c.wf(),
                        keeps_eslice(c.ep),
                        c == after_moves(root, self.stack_dr@ + self.stack_fin@),
                        dr_len <= i32::MAX - 256,
                        0 <= target_fin <= 14,
                        old(self).time_over ==> self.time_over,
                        self.time_over ==> old(self).time_over || self.best is Some,
                        self.improved_from(*old(self), old(self).stack_dr@),
                        self.best != old(self).best ==> (self.best matches Some(b) && dr_len
                            <= b@.len() <= dr_len + 13 && in_dr(after_moves(root, b@.subrange(0, dr_len as int)))),
                        no_redundant(self.stack_dr@),
                        in_dr(c),
                        c == after_moves(root, self.stack_dr@),
                        cp == *self.pt_cp,
                        ep == *self.pt_ep,
                        last == self.last_of(),
                        self.stack_dr@.len() == dr_len,
                        forall|f: nat|
                            f < target_fin && #[trigger] fin_reaches(cp, ep, c, f, last)
                                ==> self.found(dr_len + f),
                    decreases 14 - target_fin,
                {
                    let ghost pre = *self;
                    proof {
                        assert(self.stack_dr@ + self.stack_fin@ =~= self.stack_dr@);
                    }
                    self.solve_fin(c.clone(), target_fin, Ghost(root));
                    proof {
                        let p0 = old(self).stack_dr@;
                        assert(p0.subrange(0, p0.len() as int) =~= p0);
                        assert(pre.stack_dr@ + pre.stack_fin@ =~= p0);
                        Self::lemma_improved_trans(*old(self), pre, *self, p0, p0);
                        if self.best != pre.best {
                            let bb = self.best.unwrap();
                            assert(bb@.subrange(0, dr_len as int) == p0);
                        }
                        assert forall|f: nat|
                            f < target_fin + 1 && #[trigger] fin_reaches(cp, ep, c, f, last)
                                implies self.found(dr_len + f) by {
                            if f < target_fin {
                                pre.lemma_found_kept(*self, dr_len + f, dr_len + f);
                            }
                        }
                    }
                    target_fin = target_fin + 1;
                }
            }
            return;
        }
        if self.stack_dr.len() as i32 + self.eval_drud(&c) > dr_len {
            return;
        }
        let moves = Move::all();
        let mut k: usize = 0;
        while k < moves.len()
            invariant
                self.ready(),
                self.same_setup(*old(self)),
                self.stack_dr@ == old(self).stack_dr@,
                self.stack_fin@.len() == 0,
                self.kept_or_solves(*old(self), root),
                self.no_worse(*old(self)),
                c.wf(),
                c == after_moves(root, self.stack_dr@),
                0 <= self.stack_dr@.len() < dr_len <= i32::MAX - 256,
                moves@.len() == 18,
                k <= moves@.len(),
                forall|m: Move| moves@.contains(m),
                old(self).time_over ==> self.time_over,
                self.time_over ==> old(self).time_over || self.best is Some,
                self.improved_from(*old(self), old(self).stack_dr@),
                self.best != old(self).best ==> (self.best matches Some(b) && dr_len
                    <= b@.len() <= dr_len + 13 && in_dr(after_moves(root, b@.subrange(0, dr_len as int)))),
                no_redundant(old(self).stack_dr@),
                co == *self.pt_co,
                eo == *self.pt_eo,
                cp == *self.pt_cp,
                ep == *self.pt_ep,
                kk == dr_len - self.stack_dr@.len(),
                kk >= 1,
                last == self.last_of(),
                forall|f: nat, j: int|
                    f <= 13 && 0 <= j < k && !skipped(last, #[trigger] moves@[j]) && #[trigger] dr_reaches(
                        co,
                        eo,
                        cp,
                        ep,
                        after_move(c, moves@[j]),
                        (kk - 1) as nat,
                        Some(moves@[j]),
                        f,
                    ) ==> self.found(dr_len + f),
            decreases moves@.len() - k,
        {
            let m = moves[k];
            if self.skip(m) {
                k = k + 1;
                continue;
            }
            let next = c.apply_move(m);
            let ghost before = self.stack_dr@;
            let ghost pre = *self;
            self.stack_dr.push(m);
            proof {
                assert(self.stack_dr@.drop_last() =~= before);
                assert(self.last_of() == Some(m));
                assert(self.stack_dr@ =~= before.push(m));
                if before.len() > 0 {
                    assert(pre.last_of() == Some(before.last()));
                }
                lemma_no_redundant_push(before, m);
            }
            let ghost pushed = *self;
            self.solve_dr(next, dr_len, Ghost(root));
            self.stack_dr.pop();
            proof {
                assert(self.stack_dr@ =~= before);
                let p1 = before.push(m);
                assert(p1.subrange(0, before.len() as int) =~= before);
                Self::lemma_improved_trans(*old(self), pre, *self, before, p1);
                assert forall|f: nat, j: int|
                    f <= 13 && 0 <= j < k + 1 && !skipped(last, #[trigger] moves@[j]) && #[trigger] dr_reaches(
                        co,
                        eo,
                        cp,
                        ep,
                        after_move(c, moves@[j]),
                        (kk - 1) as nat,
                        Some(moves@[j]),
                        f,
                    ) implies self.found(dr_len + f) by {
                    if j < k {
                        pre.lemma_found_kept(*self, dr_len + f, dr_len + f);
                    } else {
                        assert(moves@[j] == m);
                        assert((dr_len - pushed.stack_dr@.len()) as nat == (kk - 1) as nat);
                        assert(pushed.last_of() == Some(m));
                        assert(dr_reaches(
                            *pushed.pt_co,
                            *pushed.pt_eo,
                            *pushed.pt_cp,
                            *pushed.pt_ep,
                            next,
                            (dr_len - pushed.stack_dr@.len()) as nat,
                            pushed.last_of(),
                            f,
                        ));
                    }
                }
            }
            k = k + 1;
        }
        proof {
            assert forall|f: nat|
                f <= 13 && #[trigger] dr_reaches(co, eo, cp, ep, c, kk, last, f) implies self.found(
                dr_len + f,
            ) by {
                let m = choose|m: Move|
                    #![trigger after_move(c, m)]
                    !skipped(last, m) && dr_reaches(co, eo, cp, ep, after_move(c, m), (kk - 1) as nat, Some(m), f);
                assert(moves@.contains(m));
                let j = choose|j: int| 0 <= j < moves@.len() && moves@[j] == m;
                assert(dr_reaches(co, eo, cp, ep, after_move(c, moves@[j]), (kk - 1) as nat, Some(moves@[j]), f));
            }
        }
    }

    /// Iterative deepening on the length of the first phase, from 0 to 20 moves, until the
    /// best solution is no longer than the first phase alone.
    pub fn solve(&mut self, c: Cube)
        requires
            old(self).ready(),
            c.wf(),
            old(self).stack_dr@.len() == 0,
            old(self).stack_fin@.len() == 0,
        ensures
            final(self).same_setup(*old(self)),
            final(self).kept_or_solves(*old(self), c),
            final(self).no_worse(*old(self)),
            old(self).time_over ==> final(self).time_over,
            final(self).time_over ==> old(self).time_over || final(self).best is Some,
            final(self).stack_dr@.len() == 0,
            final(self).stack_fin@.len() == 0,
            final(self).improved_from(*old(self), Seq::empty()),
            final(self).best != old(self).best ==> (final(self).best matches Some(b) && b@.len()
                <= 33),
            forall|d: nat, f: nat|
                d <= 20 && f <= 13 && #[trigger] dr_reaches(
                    *old(self).pt_co,
                    *old(self).pt_eo,
                    *old(self).pt_cp,
                    *old(self).pt_ep,
                    c,
                    d,
                    None,
                    f,
                ) ==> final(self).found(d + f as int),
    {
        let ghost co = *self.pt_co;
        let ghost eo = *self.pt_eo;
        let ghost cp = *self.pt_cp;
        let ghost ep = *self.pt_ep;
        let mut dr_len: i32 = 0;
        while dr_len <= 20
            invariant
                self.ready(),
                self.same_setup(*old(self)),
                self.stack_dr@.len() == 0,
                self.stack_fin@.len() == 0,
                self.kept_or_solves(*old(self), c),
                self.no_worse(*old(self)),
                c.wf(),
                0 <= dr_len <= 21,
                old(self).time_over ==> self.time_over,
                self.time_over ==> old(self).time_over || self.best is Some,
                self.improved_from(*old(self), Seq::empty()),
                self.best != old(self).best ==> (self.best matches Some(b) && b@.len() <= 33),
                co == *self.pt_co,
                eo == *self.pt_eo,
                cp == *self.pt_cp,
                ep == *self.pt_ep,
                forall|d: nat, f: nat|
                    d < dr_len && f <= 13 && #[trigger] dr_reaches(co, eo, cp, ep, c, d, None, f)
                        ==> self.found(d + f as int),
            decreases 21 - dr_len,
        {
            let stop = match &self.best {
                None => false,
                Some(best) => dr_len as usize >= best.len(),
            };
            if stop {
                return;
            }
            proof {
                assert(after_moves(c, self.stack_dr@) == c);
                assert(self.last_of() == None::<Move>);
            }
            let ghost pre = *self;
            proof {
                assert(self.stack_dr@ =~= Seq::<Move>::empty());
            }
            self.solve_dr(c.clone(), dr_len, Ghost(c));
            proof {
                let e = Seq::<Move>::empty();
                assert(e.subrange(0, 0) =~= e);
                Self::lemma_improved_trans(*old(self), pre, *self, e, e);
                assert forall|d: nat, f: nat|
                    d < dr_len + 1 && f <= 13 && #[trigger] dr_reaches(co, eo, cp, ep, c, d, None, f)
                        implies self.found(d + f as int) by {
                    if d < dr_len {
                        pre.lemma_found_kept(*self, d + f as int, d + f as int);
                    } else {
                        assert(pre.stack_dr@.len() == 0);
                        assert((dr_len - pre.stack_dr@.len()) as nat == d);
                        assert(dr_reaches(
                            *pre.pt_co,
                            *pre.pt_eo,
                            *pre.pt_cp,
                            *pre.pt_ep,
                            c,
                            (dr_len - pre.stack_dr@.len()) as nat,
                            pre.last_of(),
                            f,
                        ));
                    }
                }
            }
            dr_len = dr_len + 1;
        }
    }
}

} // verus!
