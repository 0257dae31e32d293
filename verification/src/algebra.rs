//! The algebra of cube states and turns: every two states compose, every turn has a cube,
//! and sequences of turns that the search leaves out have an equally short replacement.
use vstd::prelude::*;

use crate::bitset::{bit, lemma_bit_or, lemma_bit_zero};
use crate::cube::{
    co_moved, lane, lemma_co_moved_lanes, lemma_lane_ext, lemma_lane_or, lemma_twist_sum_lanes,
    twist_sum, twists_valid, Cube, CO, EO,
};
use crate::bitset::lemma_bit_ext;
use crate::face::Face;
use crate::mov::Move;
use crate::cube::{after_move, after_moves};
use crate::solver::{no_redundant, redundant_after};
use crate::perm::Perm;

verus! {

/// The word whose bits `0..n` are `s[0..n]` and whose other bits are clear.
pub open spec fn pack_bits(s: Seq<bool>, n: int) -> u16
    decreases n,
{
    if n <= 0 {
        0
    } else {
        pack_bits(s, n - 1) | (((if s[n - 1] {
            1u16
        } else {
            0u16
        }) << ((n - 1) as u16)) as u16)
    }
}

/// The bits of `pack_bits(s, n)`.
pub proof fn lemma_pack_bits(s: Seq<bool>, n: int)
    requires
        0 <= n <= 16,
    ensures
        forall|j: int| 0 <= j < 16 ==> #[trigger] bit(pack_bits(s, n), j) == (j < n && s[j]),
    decreases n,
{
    if n == 0 {
        assert forall|j: int| 0 <= j < 16 implies !#[trigger] bit(pack_bits(s, n), j) by {
            lemma_bit_zero(j);
        }
    } else {
        lemma_pack_bits(s, n - 1);
        let b: u16 = if s[n - 1] {
            1u16
        } else {
            0u16
        };
        assert forall|j: int| 0 <= j < 16 implies #[trigger] bit(pack_bits(s, n), j) == (j < n
            && s[j]) by {
            lemma_bit_or(pack_bits(s, n - 1), b, n - 1, j);
            assert(((n - 1) as u16) == ((n - 1) as int) as u16);
        }
    }
}

/// The word whose two-bit lanes `0..n` hold `s[0..n]` and whose other lanes are zero.
pub open spec fn pack_lanes(s: Seq<int>, n: int) -> u16
    decreases n,
{
    if n <= 0 {
        0
    } else {
        pack_lanes(s, n - 1) | (((s[n - 1] as u16) << ((2 * (n - 1)) as u16)) as u16)
    }
}

/// The lanes of `pack_lanes(s, n)`.
pub proof fn lemma_pack_lanes(s: Seq<int>, n: int)
    requires
        0 <= n <= 8,
        forall|i: int| 0 <= i < n ==> 0 <= #[trigger] s[i] < 4,
    ensures
        forall|k: int| 0 <= k < 8 ==> #[trigger] lane(pack_lanes(s, n), k) == if k < n {
            s[k]
        } else {
            0
        },
    decreases n,
{
    if n == 0 {
        assert forall|k: int| 0 <= k < 8 implies #[trigger] lane(pack_lanes(s, n), k) == 0 by {
            lemma_lane_or(0, 0, 0, k);
        }
    } else {
        lemma_pack_lanes(s, n - 1);
        let prev = pack_lanes(s, n - 1);
        let v = s[n - 1] as u16;
        assert forall|k: int| 0 <= k < 8 implies #[trigger] lane(pack_lanes(s, n), k) == if k < n {
            s[k]
        } else {
            0
        } by {
            lemma_lane_or(prev, v, n - 1, k);
        }
    }
}

/// Any two well-formed cube states compose.
pub proof fn lemma_compose_exists(a: Cube, b: Cube)
    requires
        a.wf(),
        b.wf(),
    ensures
        exists|r: Cube| r.is_compose_of(a, b),
{
    Perm::<12>::lemma_compose_exists(a.ep, b.ep);
    let ep = choose|p: Perm<12>| p.is_compose_of(a.ep, b.ep);
    Perm::<8>::lemma_compose_exists(a.cp, b.cp);
    let cp = choose|p: Perm<8>| p.is_compose_of(a.cp, b.cp);
    let flips = Seq::new(16, |j: int| EO::moved_bit(a.eo.0, b.ep, j) != bit(b.eo.0, j));
    lemma_pack_bits(flips, 16);
    let r = Cube {
        eo: EO(pack_bits(flips, 16)),
        co: CO(twist_sum(co_moved(a.co.0, b.cp, 8), b.co.0)),
        ep,
        cp,
    };
    assert(r.is_compose_of(a, b));
}

/// Facts about the tables of a turn: its slot moves are permutations, its flips stay on the
/// twelve edges and its twists are twists.
#[verifier::rlimit(100)]
pub proof fn lemma_move_tables(m: Move)
    ensures
        m.edge_dests().len() == 12,
        m.corner_dests().len() == 8,
        m.flips().len() == 16,
        m.twists().len() == 8,
        forall|i: int| 0 <= i < 12 ==> 0 <= #[trigger] m.edge_dests()[i] < 12,
        forall|i: int| 0 <= i < 8 ==> 0 <= #[trigger] m.corner_dests()[i] < 8,
        forall|i: int, j: int|
            0 <= i < 12 && 0 <= j < 12 && i != j ==> #[trigger] m.edge_dests()[i]
                != #[trigger] m.edge_dests()[j],
        forall|i: int, j: int|
            0 <= i < 8 && 0 <= j < 8 && i != j ==> #[trigger] m.corner_dests()[i]
                != #[trigger] m.corner_dests()[j],
        forall|j: int| 12 <= j < 16 ==> !#[trigger] m.flips()[j],
        forall|i: int| 0 <= i < 8 ==> 0 <= #[trigger] m.twists()[i] < 3,
{
}

/// Every turn has a cube: the state it makes from the solved cube.
pub proof fn lemma_move_cube(m: Move)
    ensures
        m.is_cube_of(m.spec_cube()),
{
    lemma_move_tables(m);
    Perm::<12>::lemma_from_seq(m.edge_dests());
    Perm::<8>::lemma_from_seq(m.corner_dests());
    lemma_pack_bits(m.flips(), 16);
    lemma_pack_lanes(m.twists(), 8);
    let c = Cube {
        eo: EO(pack_bits(m.flips(), 16)),
        co: CO(pack_lanes(m.twists(), 8)),
        ep: Perm::<12>::from_seq(m.edge_dests()),
        cp: Perm::<8>::from_seq(m.corner_dests()),
    };
    assert(c.ep.valid());
    assert(c.cp.valid());
    assert(c.co@ =~= m.twists());
    assert(m.is_cube_of(c));
}

/// The state after a turn: edge `i` goes where the turn sends its slot, the flip of slot
/// `k` moves to the turn's image of `k` and takes on the turn's flip there, and likewise
/// for the corners and their twists.
pub proof fn lemma_after_move(c: Cube, m: Move)
    requires
        c.wf(),
    ensures
        after_move(c, m).is_compose_of(c, m.spec_cube()),
        after_move(c, m).wf(),
        forall|i: int| 0 <= i < 12 ==> #[trigger] after_move(c, m).ep.dest_of(i) == m.edge_dests()[c.ep.dest_of(i)],
        forall|i: int| 0 <= i < 8 ==> #[trigger] after_move(c, m).cp.dest_of(i) == m.corner_dests()[c.cp.dest_of(i)],
        forall|k: int| 0 <= k < 12 ==> #[trigger] bit(after_move(c, m).eo.0, m.edge_dests()[k]) == (bit(c.eo.0, k) != m.flips()[m.edge_dests()[k]]),
        forall|k: int| 0 <= k < 8 ==> #[trigger] lane(after_move(c, m).co.0, m.corner_dests()[k]) == (lane(c.co.0, k) + m.twists()[m.corner_dests()[k]]) % 3,
{
    lemma_move_cube(m);
    lemma_move_tables(m);
    let mc = m.spec_cube();
    lemma_compose_exists(c, mc);
    let r = after_move(c, m);
    Cube::law_compose_wf(c, mc, r);
    assert forall|i: int| 0 <= i < 12 implies #[trigger] r.ep.dest_of(i) == m.edge_dests()[c.ep.dest_of(i)] by {
        assert(c.ep.dest_of(i) < 12);
        assert(mc.ep@[c.ep.dest_of(i)] == mc.ep.dest_of(c.ep.dest_of(i)));
    }
    assert forall|i: int| 0 <= i < 8 implies #[trigger] r.cp.dest_of(i) == m.corner_dests()[c.cp.dest_of(i)] by {
        assert(c.cp.dest_of(i) < 8);
        assert(mc.cp@[c.cp.dest_of(i)] == mc.cp.dest_of(c.cp.dest_of(i)));
    }
    assert forall|k: int| 0 <= k < 12 implies #[trigger] bit(r.eo.0, m.edge_dests()[k]) == (bit(c.eo.0, k) != m.flips()[m.edge_dests()[k]]) by {
        let j = m.edge_dests()[k];
        assert(mc.ep.dest_of(k) == mc.ep@[k]);
        if EO::moved_bit(c.eo.0, mc.ep, j) {
            let i = choose|i: int| 0 <= i < 12 && bit(c.eo.0, i) && #[trigger] mc.ep.dest_of(i) == j;
            assert(mc.ep.dest_of(i) == mc.ep@[i]);
            if i != k {
                assert(mc.ep.dest_of(i) != mc.ep.dest_of(k));
            }
        }
        if bit(c.eo.0, k) {
            assert(EO::moved_bit(c.eo.0, mc.ep, j));
        }
    }
    lemma_co_moved_lanes(c.co.0, mc.cp);
    lemma_twist_sum_lanes(co_moved(c.co.0, mc.cp, 8), mc.co.0);
    assert forall|k: int| 0 <= k < 8 implies #[trigger] lane(r.co.0, m.corner_dests()[k]) == (lane(c.co.0, k) + m.twists()[m.corner_dests()[k]]) % 3 by {
        assert(mc.cp.dest_of(k) == mc.cp@[k]);
        let j = m.corner_dests()[k];
        assert(mc.co@[j] == lane(mc.co.0, j));
    }
}

/// `r` is `c` with its edge slots sent along `ed`, the flip of slot `k` toggled by `fl(k)`,
/// its corner slots sent along `cd`, and the twist of slot `k` raised by `tw(k)`.
pub open spec fn follows(
    r: Cube,
    c: Cube,
    ed: spec_fn(int) -> int,
    fl: spec_fn(int) -> bool,
    cd: spec_fn(int) -> int,
    tw: spec_fn(int) -> int,
) -> bool {
    &&& forall|i: int| 0 <= i < 12 ==> #[trigger] r.ep.dest_of(i) == ed(c.ep.dest_of(i))
    &&& forall|k: int| 0 <= k < 12 ==> #[trigger] bit(r.eo.0, ed(k)) == (bit(c.eo.0, k) != fl(k))
    &&& forall|i: int| 0 <= i < 8 ==> #[trigger] r.cp.dest_of(i) == cd(c.cp.dest_of(i))
    &&& forall|k: int| 0 <= k < 8 ==> #[trigger] lane(r.co.0, cd(k)) == (lane(c.co.0, k) + tw(k)) % 3
}

/// Some `k < n` is sent to `j` by `f`.
pub open spec fn hits(f: spec_fn(int) -> int, n: int, j: int) -> bool {
    exists|k: int| 0 <= k < n && #[trigger] f(k) == j
}

/// `ed` reaches every edge slot and `cd` every corner slot.
pub open spec fn onto(ed: spec_fn(int) -> int, cd: spec_fn(int) -> int) -> bool {
    &&& forall|j: int| 0 <= j < 12 ==> #[trigger] hits(ed, 12, j)
    &&& forall|j: int| 0 <= j < 8 ==> #[trigger] hits(cd, 8, j)
}

/// Two well-formed states made from `c` in the same way are the same state.
pub proof fn lemma_follows_unique(
    r: Cube,
    s: Cube,
    c: Cube,
    ed: spec_fn(int) -> int,
    fl: spec_fn(int) -> bool,
    cd: spec_fn(int) -> int,
    tw: spec_fn(int) -> int,
)
    requires
        r.wf(),
        s.wf(),
        c.wf(),
        follows(r, c, ed, fl, cd, tw),
        follows(s, c, ed, fl, cd, tw),
        onto(ed, cd),
    ensures
        r == s,
{
    assert forall|i: int| 0 <= i < 12 implies r.ep.dest_of(i) == s.ep.dest_of(i) by {}
    r.ep.lemma_ext(s.ep);
    assert forall|i: int| 0 <= i < 8 implies r.cp.dest_of(i) == s.cp.dest_of(i) by {}
    r.cp.lemma_ext(s.cp);
    assert forall|j: int| 0 <= j < 16 implies bit(r.eo.0, j) == bit(s.eo.0, j) by {
        if j < 12 {
            assert(hits(ed, 12, j));
            let k = choose|k: int| 0 <= k < 12 && #[trigger] ed(k) == j;
            assert(bit(r.eo.0, ed(k)) == bit(s.eo.0, ed(k)));
        }
    }
    lemma_bit_ext(r.eo.0, s.eo.0);
    assert forall|j: int| 0 <= j < 8 implies lane(r.co.0, j) == lane(s.co.0, j) by {
        assert(hits(cd, 8, j));
        let k = choose|k: int| 0 <= k < 8 && #[trigger] cd(k) == j;
        assert(lane(r.co.0, cd(k)) == lane(s.co.0, cd(k)));
    }
    lemma_lane_ext(r.co.0, s.co.0);
}

/// One turn, as a way of making a state.
pub proof fn lemma_one_turn(c: Cube, m: Move)
    requires
        c.wf(),
    ensures
        after_move(c, m).wf(),
        follows(
            after_move(c, m),
            c,
            |k: int| m.edge_dests()[k],
            |k: int| m.flips()[m.edge_dests()[k]],
            |k: int| m.corner_dests()[k],
            |k: int| m.twists()[m.corner_dests()[k]],
        ),
        onto(|k: int| m.edge_dests()[k], |k: int| m.corner_dests()[k]),
{
    lemma_after_move(c, m);
    lemma_move_cube(m);
    let mc = m.spec_cube();
    let ed = |k: int| m.edge_dests()[k];
    let cd = |k: int| m.corner_dests()[k];
    assert forall|j: int| 0 <= j < 12 implies #[trigger] hits(ed, 12, j) by {
        mc.ep.lemma_has_source(j);
        let k = choose|k: int| 0 <= k < 12 && mc.ep.dest_of(k) == j;
        assert(mc.ep@[k] == mc.ep.dest_of(k));
        assert(ed(k) == j);
    }
    assert forall|j: int| 0 <= j < 8 implies #[trigger] hits(cd, 8, j) by {
        mc.cp.lemma_has_source(j);
        let k = choose|k: int| 0 <= k < 8 && mc.cp.dest_of(k) == j;
        assert(mc.cp@[k] == mc.cp.dest_of(k));
        assert(cd(k) == j);
    }
}

/// Where two turns, `x` then `y`, send edge slot `k`.
pub open spec fn edge2(x: Move, y: Move, k: int) -> int {
    y.edge_dests()[x.edge_dests()[k]]
}

/// Whether two turns, `x` then `y`, flip the edge that starts in slot `k`.
pub open spec fn flip2(x: Move, y: Move, k: int) -> bool {
    x.flips()[x.edge_dests()[k]] != y.flips()[edge2(x, y, k)]
}

/// Where two turns, `x` then `y`, send corner slot `k`.
pub open spec fn corner2(x: Move, y: Move, k: int) -> int {
    y.corner_dests()[x.corner_dests()[k]]
}

/// How much two turns, `x` then `y`, twist the corner that starts in slot `k`.
pub open spec fn twist2(x: Move, y: Move, k: int) -> int {
    (x.twists()[x.corner_dests()[k]] + y.twists()[corner2(x, y, k)]) % 3
}

/// Two turns, as a way of making a state.
pub proof fn lemma_two_turns(c: Cube, x: Move, y: Move)
    requires
        c.wf(),
    ensures
        after_move(after_move(c, x), y).wf(),
        follows(
            after_move(after_move(c, x), y),
            c,
            |k: int| edge2(x, y, k),
            |k: int| flip2(x, y, k),
            |k: int| corner2(x, y, k),
            |k: int| twist2(x, y, k),
        ),
        onto(|k: int| edge2(x, y, k), |k: int| corner2(x, y, k)),
{
    let r1 = after_move(c, x);
    lemma_one_turn(c, x);
    lemma_one_turn(r1, y);
    lemma_after_move(c, x);
    lemma_after_move(r1, y);
    lemma_move_tables(x);
    lemma_move_tables(y);
    let r2 = after_move(r1, y);
    assert forall|i: int| 0 <= i < 12 implies #[trigger] r2.ep.dest_of(i) == edge2(x, y, c.ep.dest_of(i)) by {
        assert(r2.ep.dest_of(i) == y.edge_dests()[r1.ep.dest_of(i)]);
    }
    assert forall|k: int| 0 <= k < 12 implies #[trigger] bit(r2.eo.0, edge2(x, y, k)) == (bit(c.eo.0, k) != flip2(x, y, k)) by {
        let k1 = x.edge_dests()[k];
        assert(bit(r1.eo.0, k1) == (bit(c.eo.0, k) != x.flips()[k1]));
        assert(bit(r2.eo.0, y.edge_dests()[k1]) == (bit(r1.eo.0, k1) != y.flips()[y.edge_dests()[k1]]));
    }
    assert forall|i: int| 0 <= i < 8 implies #[trigger] r2.cp.dest_of(i) == corner2(x, y, c.cp.dest_of(i)) by {
        assert(r2.cp.dest_of(i) == y.corner_dests()[r1.cp.dest_of(i)]);
    }
    assert forall|k: int| 0 <= k < 8 implies #[trigger] lane(r2.co.0, corner2(x, y, k)) == (lane(c.co.0, k) + twist2(x, y, k)) % 3 by {
        let k1 = x.corner_dests()[k];
        assert(lane(r1.co.0, k1) == (lane(c.co.0, k) + x.twists()[k1]) % 3);
        assert(lane(r2.co.0, y.corner_dests()[k1]) == (lane(r1.co.0, k1) + y.twists()[y.corner_dests()[k1]]) % 3);
        let a = lane(c.co.0, k);
        let b = x.twists()[k1];
        let d = y.twists()[y.corner_dests()[k1]];
        assert(((a + b) % 3 + d) % 3 == (a + (b + d) % 3) % 3) by (nonlinear_arith);
    }
    let ed1 = |k: int| x.edge_dests()[k];
    let ed2 = |k: int| y.edge_dests()[k];
    let cd1 = |k: int| x.corner_dests()[k];
    let cd2 = |k: int| y.corner_dests()[k];
    let e2 = |k: int| edge2(x, y, k);
    let c2 = |k: int| corner2(x, y, k);
    assert forall|j: int| 0 <= j < 12 implies #[trigger] hits(e2, 12, j) by {
        assert(hits(ed2, 12, j));
        let k1 = choose|k: int| 0 <= k < 12 && #[trigger] ed2(k) == j;
        assert(hits(ed1, 12, k1));
        let k = choose|k: int| 0 <= k < 12 && #[trigger] ed1(k) == k1;
        assert(e2(k) == j);
    }
    assert forall|j: int| 0 <= j < 8 implies #[trigger] hits(c2, 8, j) by {
        assert(hits(cd2, 8, j));
        let k1 = choose|k: int| 0 <= k < 8 && #[trigger] cd2(k) == j;
        assert(hits(cd1, 8, k1));
        let k = choose|k: int| 0 <= k < 8 && #[trigger] cd1(k) == k1;
        assert(c2(k) == j);
    }
}

/// Turns of opposite faces commute, slot by slot.
#[verifier::rlimit(100)]
pub proof fn lemma_opposite_tables(x: Move, y: Move)
    requires
        x.spec_face() == y.spec_face().spec_opposite(),
    ensures
        forall|k: int| 0 <= k < 12 ==> #[trigger] edge2(x, y, k) == edge2(y, x, k) && flip2(x, y, k) == flip2(y, x, k),
        forall|k: int| 0 <= k < 8 ==> #[trigger] corner2(x, y, k) == corner2(y, x, k) && twist2(x, y, k) == twist2(y, x, k),
{
}

/// The number of clockwise quarter turns that a turn makes: 1, 2 or 3.
pub open spec fn quarters(m: Move) -> int {
    m.turn() + 1
}

/// The turn of face `f` by `q` clockwise quarter turns (`q` is 1, 2 or 3).
pub open spec fn turn_of(f: Face, q: int) -> Move {
    match f {
        Face::U => if q == 1 { Move::U } else if q == 2 { Move::U2 } else { Move::U3 },
        Face::D => if q == 1 { Move::D } else if q == 2 { Move::D2 } else { Move::D3 },
        Face::F => if q == 1 { Move::F } else if q == 2 { Move::F2 } else { Move::F3 },
        Face::B => if q == 1 { Move::B } else if q == 2 { Move::B2 } else { Move::B3 },
        Face::R => if q == 1 { Move::R } else if q == 2 { Move::R2 } else { Move::R3 },
        Face::L => if q == 1 { Move::L } else if q == 2 { Move::L2 } else { Move::L3 },
    }
}

/// Two turns of the same face make the turn of their quarter turns added, or nothing when
/// those add up to a whole turn.
#[verifier::rlimit(100)]
pub proof fn lemma_same_face_tables(x: Move, y: Move)
    requires
        x.spec_face() == y.spec_face(),
    ensures
        (quarters(x) + quarters(y)) % 4 == 0 ==> (forall|k: int|
            0 <= k < 12 ==> #[trigger] edge2(x, y, k) == k && !flip2(x, y, k)) && (forall|k: int|
            0 <= k < 8 ==> #[trigger] corner2(x, y, k) == k && twist2(x, y, k) == 0),
        (quarters(x) + quarters(y)) % 4 != 0 ==> ({
            let z = turn_of(x.spec_face(), (quarters(x) + quarters(y)) % 4);
            &&& z.spec_face() == x.spec_face()
            &&& forall|k: int|
                0 <= k < 12 ==> #[trigger] edge2(x, y, k) == z.edge_dests()[k] && flip2(x, y, k)
                    == z.flips()[z.edge_dests()[k]]
            &&& forall|k: int|
                0 <= k < 8 ==> #[trigger] corner2(x, y, k) == z.corner_dests()[k] && twist2(x, y, k)
                    == z.twists()[z.corner_dests()[k]]
        }),
{
}

/// Turns of opposite faces commute.
pub proof fn lemma_commute(c: Cube, x: Move, y: Move)
    requires
        c.wf(),
        x.spec_face() == y.spec_face().spec_opposite(),
    ensures
        after_move(after_move(c, x), y) == after_move(after_move(c, y), x),
{
    lemma_two_turns(c, x, y);
    lemma_two_turns(c, y, x);
    lemma_opposite_tables(x, y);
    let r = after_move(after_move(c, x), y);
    let s = after_move(after_move(c, y), x);
    let ed = |k: int| edge2(x, y, k);
    let fl = |k: int| flip2(x, y, k);
    let cd = |k: int| corner2(x, y, k);
    let tw = |k: int| twist2(x, y, k);
    let ed2 = |k: int| edge2(y, x, k);
    let fl2 = |k: int| flip2(y, x, k);
    let cd2 = |k: int| corner2(y, x, k);
    let tw2 = |k: int| twist2(y, x, k);
    assert(follows(s, c, ed2, fl2, cd2, tw2));
    assert forall|i: int| 0 <= i < 12 implies #[trigger] s.ep.dest_of(i) == ed(c.ep.dest_of(i)) by {
        assert(s.ep.dest_of(i) == ed2(c.ep.dest_of(i)));
        assert(0 <= c.ep.dest_of(i) < 12);
    }
    assert forall|k: int| 0 <= k < 12 implies #[trigger] bit(s.eo.0, ed(k)) == (bit(c.eo.0, k) != fl(k)) by {
        assert(bit(s.eo.0, ed2(k)) == (bit(c.eo.0, k) != fl2(k)));
    }
    assert forall|i: int| 0 <= i < 8 implies #[trigger] s.cp.dest_of(i) == cd(c.cp.dest_of(i)) by {
        assert(s.cp.dest_of(i) == cd2(c.cp.dest_of(i)));
        assert(0 <= c.cp.dest_of(i) < 8);
    }
    assert forall|k: int| 0 <= k < 8 implies #[trigger] lane(s.co.0, cd(k)) == (lane(c.co.0, k) + tw(k)) % 3 by {
        assert(lane(s.co.0, cd2(k)) == (lane(c.co.0, k) + tw2(k)) % 3);
    }
    lemma_follows_unique(r, s, c, ed, fl, cd, tw);
}

/// Two turns of the same face make one turn of that face, or nothing.
pub proof fn lemma_merge(c: Cube, x: Move, y: Move)
    requires
        c.wf(),
        x.spec_face() == y.spec_face(),
    ensures
        (quarters(x) + quarters(y)) % 4 == 0 ==> after_move(after_move(c, x), y) == c,
        (quarters(x) + quarters(y)) % 4 != 0 ==> after_move(after_move(c, x), y) == after_move(
            c,
            turn_of(x.spec_face(), (quarters(x) + quarters(y)) % 4),
        ),
{
    lemma_two_turns(c, x, y);
    lemma_same_face_tables(x, y);
    let r = after_move(after_move(c, x), y);
    let ed = |k: int| edge2(x, y, k);
    let fl = |k: int| flip2(x, y, k);
    let cd = |k: int| corner2(x, y, k);
    let tw = |k: int| twist2(x, y, k);
    let q = (quarters(x) + quarters(y)) % 4;
    if q == 0 {
        assert forall|i: int| 0 <= i < 12 implies #[trigger] c.ep.dest_of(i) == ed(c.ep.dest_of(i)) by {
            assert(0 <= c.ep.dest_of(i) < 12);
        }
        assert forall|k: int| 0 <= k < 12 implies #[trigger] bit(c.eo.0, ed(k)) == (bit(c.eo.0, k) != fl(k)) by {}
        assert forall|i: int| 0 <= i < 8 implies #[trigger] c.cp.dest_of(i) == cd(c.cp.dest_of(i)) by {
            assert(0 <= c.cp.dest_of(i) < 8);
        }
        assert forall|k: int| 0 <= k < 8 implies #[trigger] lane(c.co.0, cd(k)) == (lane(c.co.0, k) + tw(k)) % 3 by {
            assert(lane(c.co.0, k) < 3);
        }
        lemma_follows_unique(r, c, c, ed, fl, cd, tw);
    } else {
        let z = turn_of(x.spec_face(), q);
        let s = after_move(c, z);
        lemma_one_turn(c, z);
        let ed2 = |k: int| z.edge_dests()[k];
        let fl2 = |k: int| z.flips()[z.edge_dests()[k]];
        let cd2 = |k: int| z.corner_dests()[k];
        let tw2 = |k: int| z.twists()[z.corner_dests()[k]];
        assert(follows(s, c, ed2, fl2, cd2, tw2));
        assert forall|i: int| 0 <= i < 12 implies #[trigger] s.ep.dest_of(i) == ed(c.ep.dest_of(i)) by {
            assert(s.ep.dest_of(i) == ed2(c.ep.dest_of(i)));
            assert(0 <= c.ep.dest_of(i) < 12);
        }
        assert forall|k: int| 0 <= k < 12 implies #[trigger] bit(s.eo.0, ed(k)) == (bit(c.eo.0, k) != fl(k)) by {
            assert(bit(s.eo.0, ed2(k)) == (bit(c.eo.0, k) != fl2(k)));
        }
        assert forall|i: int| 0 <= i < 8 implies #[trigger] s.cp.dest_of(i) == cd(c.cp.dest_of(i)) by {
            assert(s.cp.dest_of(i) == cd2(c.cp.dest_of(i)));
            assert(0 <= c.cp.dest_of(i) < 8);
        }
        assert forall|k: int| 0 <= k < 8 implies #[trigger] lane(s.co.0, cd(k)) == (lane(c.co.0, k) + tw(k)) % 3 by {
            assert(lane(s.co.0, cd2(k)) == (lane(c.co.0, k) + tw2(k)) % 3);
        }
        lemma_follows_unique(r, s, c, ed, fl, cd, tw);
    }
}

/// Turning a well-formed state keeps it well formed, whatever the turns.
pub proof fn lemma_after_moves_wf(c: Cube, s: Seq<Move>)
    requires
        c.wf(),
    ensures
        after_moves(c, s).wf(),
    decreases s.len(),
{
    if s.len() > 0 {
        lemma_after_moves_wf(c, s.drop_last());
        lemma_after_move(after_moves(c, s.drop_last()), s.last());
    }
}

/// Turning by `p` and then by `q` is turning by `p` followed by `q`.
pub proof fn lemma_after_moves_concat(c: Cube, p: Seq<Move>, q: Seq<Move>)
    ensures
        after_moves(c, p + q) == after_moves(after_moves(c, p), q),
    decreases q.len(),
{
    if q.len() == 0 {
        assert(p + q =~= p);
    } else {
        lemma_after_moves_concat(c, p, q.drop_last());
        assert((p + q).drop_last() =~= p + q.drop_last());
        assert((p + q).last() == q.last());
    }
}

/// Turning by two turns.
proof fn lemma_after_two(a: Cube, x: Move, y: Move)
    ensures
        after_moves(a, seq![x, y]) == after_move(after_move(a, x), y),
        after_moves(a, seq![x]) == after_move(a, x),
        after_moves(a, Seq::<Move>::empty()) == a,
{
    reveal_with_fuel(after_moves, 3);
    assert(seq![x, y].drop_last() =~= seq![x]);
    assert(seq![x].drop_last() =~= Seq::<Move>::empty());
}

/// Replacing two neighbouring turns by turns with the same effect keeps the effect of the
/// whole sequence.
proof fn lemma_replace_middle(c: Cube, p: Seq<Move>, w: Seq<Move>, w2: Seq<Move>, q: Seq<Move>)
    requires
        c.wf(),
        after_moves(after_moves(c, p), w) == after_moves(after_moves(c, p), w2),
    ensures
        after_moves(c, p + w + q) == after_moves(c, p + w2 + q),
{
    lemma_after_moves_concat(c, p + w, q);
    lemma_after_moves_concat(c, p + w2, q);
    lemma_after_moves_concat(c, p, w);
    lemma_after_moves_concat(c, p, w2);
}

/// Sum of each position times the move order of the turn there, over the first `n` turns.
pub open spec fn order_weight(s: Seq<Move>, n: int) -> int
    decreases n,
{
    if n <= 0 {
        0
    } else {
        order_weight(s, n - 1) + (n - 1) * s[n - 1].spec_index()
    }
}

proof fn lemma_order_weight_bound(s: Seq<Move>, n: int)
    requires
        0 <= n <= s.len(),
    ensures
        0 <= order_weight(s, n) <= 17 * n * n,
    decreases n,
{
    if n > 0 {
        lemma_order_weight_bound(s, n - 1);
        let i = s[n - 1].spec_index();
        assert(0 <= i <= 17);
        assert(0 <= (n - 1) * i <= 17 * (n - 1)) by (nonlinear_arith)
            requires
                0 <= i <= 17,
                n >= 1,
        ;
        assert(17 * (n - 1) * (n - 1) + 17 * (n - 1) <= 17 * n * n) by (nonlinear_arith)
            requires
                n >= 1,
        ;
    }
}

/// Swapping the turns at `k` and `k + 1` moves the weight by their difference in order.
proof fn lemma_order_weight_swap(s: Seq<Move>, s2: Seq<Move>, k: int, n: int)
    requires
        0 <= k,
        k + 1 < s.len(),
        s2.len() == s.len(),
        s2[k] == s[k + 1],
        s2[k + 1] == s[k],
        forall|i: int| 0 <= i < s.len() && i != k && i != k + 1 ==> s2[i] == s[i],
        0 <= n <= s.len(),
    ensures
        n <= k ==> order_weight(s2, n) == order_weight(s, n),
        n >= k + 2 ==> order_weight(s2, n) == order_weight(s, n) + s[k].spec_index() - s[k
            + 1].spec_index(),
    decreases n,
{
    if n > 0 {
        lemma_order_weight_swap(s, s2, k, n - 1);
        if n == k + 2 {
            lemma_order_weight_swap(s, s2, k, k);
            let a = s[k].spec_index();
            let b = s[k + 1].spec_index();
            assert(order_weight(s, k + 1) == order_weight(s, k) + k * a);
            assert(order_weight(s2, k + 1) == order_weight(s2, k) + k * b);
            assert(k * b + (k + 1) * a == k * a + (k + 1) * b + a - b) by (nonlinear_arith);
        }
    }
}

/// A sequence of turns that the search tries, no longer than `s` and with the same effect on
/// every state; found by merging neighbouring turns of one face and putting neighbouring
/// turns of opposite faces in move order.
proof fn normal_form(s: Seq<Move>) -> (t: Seq<Move>)
    ensures
        t.len() <= s.len(),
        no_redundant(t),
        forall|c: Cube| c.wf() ==> #[trigger] after_moves(c, t) == after_moves(c, s),
    decreases s.len(), 17 * s.len() * s.len() - order_weight(s, s.len() as int),
{
    if no_redundant(s) {
        s
    } else {
        let k = choose|k: int| 0 <= k < s.len() - 1 && redundant_after(#[trigger] s[k], s[k + 1]);
        let x = s[k];
        let y = s[k + 1];
        let p = s.subrange(0, k);
        let q = s.subrange(k + 2, s.len() as int);
        assert(s =~= p + seq![x, y] + q);
        if x.spec_face() == y.spec_face() {
            let qq = (quarters(x) + quarters(y)) % 4;
            let w2: Seq<Move> = if qq == 0 {
                Seq::empty()
            } else {
                seq![turn_of(x.spec_face(), qq)]
            };
            let s2 = p + w2 + q;
            assert forall|c: Cube| c.wf() implies #[trigger] after_moves(c, s2) == after_moves(c, s) by {
                let a = after_moves(c, p);
                lemma_after_moves_wf(c, p);
                lemma_merge(a, x, y);
                lemma_after_two(a, x, y);
                lemma_after_two(a, turn_of(x.spec_face(), qq), y);
                lemma_replace_middle(c, p, seq![x, y], w2, q);
            }
            let t = normal_form(s2);
            assert forall|c: Cube| c.wf() implies #[trigger] after_moves(c, t) == after_moves(c, s) by {
                assert(after_moves(c, s2) == after_moves(c, s));
            }
            t
        } else {
            assert(x.spec_face() == y.spec_face().spec_opposite());
            assert(y.spec_index() < x.spec_index());
            let s2 = p + seq![y, x] + q;
            assert forall|c: Cube| c.wf() implies #[trigger] after_moves(c, s2) == after_moves(c, s) by {
                let a = after_moves(c, p);
                lemma_after_moves_wf(c, p);
                lemma_commute(a, x, y);
                lemma_after_two(a, x, y);
                lemma_after_two(a, y, x);
                lemma_replace_middle(c, p, seq![x, y], seq![y, x], q);
            }
            lemma_order_weight_swap(s, s2, k, s.len() as int);
            lemma_order_weight_bound(s2, s2.len() as int);
            let t = normal_form(s2);
            assert forall|c: Cube| c.wf() implies #[trigger] after_moves(c, t) == after_moves(c, s) by {
                assert(after_moves(c, s2) == after_moves(c, s));
            }
            t
        }
    }
}

/// The search leaves out only sequences it can do without: every sequence of turns has one
/// no longer, with the same effect on every state, in which no turn is one that the search
/// skips after the turn before it.
pub proof fn law_skips_keep_a_shortest(s: Seq<Move>)
    ensures
        exists|t: Seq<Move>|
            t.len() <= s.len() && no_redundant(t) && forall|c: Cube|
                c.wf() ==> #[trigger] after_moves(c, t) == after_moves(c, s),
{
    let t = normal_form(s);
    assert(t.len() <= s.len() && no_redundant(t) && forall|c: Cube|
        c.wf() ==> #[trigger] after_moves(c, t) == after_moves(c, s));
}

} // verus!
