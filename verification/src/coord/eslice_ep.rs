//! Permutation of the four E-slice edges among themselves.
use vstd::prelude::*;

use crate::coord::cp::lemma_factorial_8;
use crate::coord::{admissible, Coord};
use crate::cube::{keeps_eslice, Cube};
use crate::lehmer::{is_perm_seq, lemma_lehmer_index_injective};
use crate::perm::{lehmer_index, member, Perm};
use crate::piece::Edge;
use crate::sym::{
    inverse_sym, is_edge_conjugate, lemma_chain_valid, lemma_conjugate_parts,
    lemma_conjugator_parts_inverse, lemma_edge_conjugate_formula, lemma_edge_conjugate_inverse,
    Sym,
};

verus! {

/// The E-slice edges FL, FR, BL, BR in the order in which the coordinate reads them.
pub open spec fn eslice_edges() -> Seq<int> {
    seq![9, 8, 10, 11]
}

/// Position of an E-slice edge in `eslice_edges`.
pub open spec fn eslice_slot(x: int) -> int {
    if x == 9 {
        0
    } else if x == 8 {
        1
    } else {
        x - 8
    }
}

/// Where the permutation of `c` sends each E-slice edge, as positions in `eslice_edges`.
pub open spec fn eslice_perm(c: Cube) -> Seq<int> {
    Seq::new(4, |t: int| eslice_slot(c.ep.dest_of(eslice_edges()[t])))
}

/// For a cube of the second phase, the E-slice permutation lists four distinct slots.
proof fn lemma_eslice_perm_seq(c: Cube)
    requires
        c.ep.valid(),
        keeps_eslice(c.ep),
    ensures
        is_perm_seq(eslice_perm(c)),
{
    let s = eslice_perm(c);
    assert forall|t: int| 0 <= t < 4 implies 0 <= #[trigger] s[t] < 4 by {
        let e = eslice_edges()[t];
        assert(8 <= e < 12);
        assert(c.ep.dest_of(e) >= 8);
        assert(c.ep.dest_of(e) < 12);
    }
    assert forall|t: int, u: int| 0 <= t < 4 && 0 <= u < 4 && t != u implies s[t] != s[u] by {
        let (e, f) = (eslice_edges()[t], eslice_edges()[u]);
        assert(e != f);
        assert(c.ep.dest_of(e) != c.ep.dest_of(f));
        assert(c.ep.dest_of(e) >= 8 && c.ep.dest_of(e) < 12);
        assert(c.ep.dest_of(f) >= 8 && c.ep.dest_of(f) < 12);
    }
}

/// Cubes of the second phase with the same coordinate send each E-slice edge to the same
/// slot.
proof fn lemma_eslice_ep_determined(a: Cube, b: Cube)
    requires
        a.ep.valid(),
        b.ep.valid(),
        keeps_eslice(a.ep),
        keeps_eslice(b.ep),
        lehmer_index(eslice_perm(a)) == lehmer_index(eslice_perm(b)),
    ensures
        forall|e: int| 8 <= e < 12 ==> #[trigger] a.ep.dest_of(e) == b.ep.dest_of(e),
{
    lemma_eslice_perm_seq(a);
    lemma_eslice_perm_seq(b);
    lemma_lehmer_index_injective(eslice_perm(a), eslice_perm(b));
    assert forall|e: int| 8 <= e < 12 implies #[trigger] a.ep.dest_of(e) == b.ep.dest_of(e) by {
        let t = eslice_slot(e);
        assert(eslice_edges()[t] == e);
        assert(eslice_perm(a)[t] == eslice_perm(b)[t]);
        assert(a.ep.dest_of(e) >= 8 && a.ep.dest_of(e) < 12);
        assert(b.ep.dest_of(e) >= 8 && b.ep.dest_of(e) < 12);
    }
}

/// Cubes that send the E-slice edges to the same slots have the same coordinate.
proof fn lemma_eslice_ep_same(a: Cube, b: Cube)
    requires
        forall|e: int| 8 <= e < 12 ==> #[trigger] a.ep.dest_of(e) == b.ep.dest_of(e),
    ensures
        lehmer_index(eslice_perm(a)) == lehmer_index(eslice_perm(b)),
{
    assert forall|t: int| 0 <= t < 4 implies eslice_perm(a)[t] == eslice_perm(b)[t] by {
        let e = eslice_edges()[t];
        assert(8 <= e < 12);
        assert(a.ep.dest_of(e) == b.ep.dest_of(e));
    }
    assert(eslice_perm(a) =~= eslice_perm(b));
}

/// The E-slice permutation coordinate reads a coset: cubes of the second phase with the
/// same coordinate, each followed by the same cube `m`, have the same coordinate again.
pub proof fn law_compose_respects_eslice_ep(a: Cube, b: Cube, m: Cube, ra: Cube, rb: Cube)
    requires
        admissible(true, a),
        admissible(true, b),
        CoordESliceEP::spec_index(a) == CoordESliceEP::spec_index(b),
        ra.is_compose_of(a, m),
        rb.is_compose_of(b, m),
    ensures
        CoordESliceEP::spec_index(ra) == CoordESliceEP::spec_index(rb),
{
    lemma_eslice_ep_determined(a, b);
    assert forall|e: int| 8 <= e < 12 implies #[trigger] ra.ep.dest_of(e) == rb.ep.dest_of(e) by {
        assert(a.ep.dest_of(e) == b.ep.dest_of(e));
    }
    lemma_eslice_ep_same(ra, rb);
}

/// Coordinate based on the permutation of the E-slice pieces within the E-slice [0..4!).
pub struct CoordESliceEP;

impl Coord for CoordESliceEP {
    open spec fn needs_dr() -> bool {
        true
    }

    open spec fn spec_n_values() -> nat {
        24
    }

    open spec fn spec_index(c: Cube) -> nat {
        lehmer_index(eslice_perm(c))
    }

    open spec fn spec_conj(c: Cube, s: Sym) -> Cube {
        s.spec_conj_edges(c)
    }

    open spec fn spec_syms() -> Seq<Sym> {
        Seq::empty()
    }

    open spec fn reducible() -> bool {
        false
    }

    open spec fn complete(c: Cube) -> bool {
        true
    }

    open spec fn conj_defined(c: Cube, s: Sym) -> bool {
        is_edge_conjugate(Self::spec_conj(c, s), c, s.spec_conjugator())
    }

    proof fn lemma_conj_back(rep: Cube, s: Sym, c: Cube, r: Cube) {
        let sc = s.spec_conjugator();
        let tc = inverse_sym(s).spec_conjugator();
        lemma_conjugator_parts_inverse(s, sc, tc);
        s.lemma_dests_inverse();
        s.lemma_edge_dests_keep_eslice();
        inverse_sym(s).lemma_edge_dests_keep_eslice();
        let a = Self::spec_conj(rep, s);
        lemma_edge_conjugate_formula(a, rep, sc, tc.ep);
        lemma_conjugate_parts(r, c, tc);
        lemma_edge_conjugate_formula(r, c, tc, sc.ep);
        lemma_chain_valid(a.ep, sc.ep, rep.ep, tc.ep);
        assert(keeps_eslice(a.ep)) by {
            assert forall|i: int| 0 <= i < 12 implies (#[trigger] a.ep.dest_of(i) >= 8 <==> i >= 8) by {
                let j = sc.ep.dest_of(i);
                assert(sc.ep@[i] == j);
                assert(j < 12);
                let k = rep.ep.dest_of(j);
                assert(k < 12);
                assert(tc.ep@[k] == tc.ep.dest_of(k));
            }
        }
        lemma_eslice_ep_determined(a, c);
        assert forall|e: int| 8 <= e < 12 implies #[trigger] r.ep.dest_of(e) == rep.ep.dest_of(e) by {
            let j = tc.ep.dest_of(e);
            assert(tc.ep@[e] == j);
            assert(8 <= j < 12);
            assert(sc.ep.dest_of(j) == e);
            assert(c.ep.dest_of(j) == a.ep.dest_of(j));
            assert(rep.ep.dest_of(e) < 12);
        }
        lemma_eslice_ep_same(r, rep);
    }

    proof fn law_syms_respect_index(a: Cube, b: Cube, s: Sym) {
        let sc = s.spec_conjugator();
        let ra = Self::spec_conj(a, s);
        let rb = Self::spec_conj(b, s);
        s.lemma_edge_dests_keep_eslice();
        lemma_edge_conjugate_inverse(ra, a, sc);
        let tp = choose|p: Perm<12>| p.is_inverse_of(sc.ep);
        lemma_edge_conjugate_formula(ra, a, sc, tp);
        lemma_edge_conjugate_formula(rb, b, sc, tp);
        lemma_eslice_ep_determined(a, b);
        assert forall|e: int| 8 <= e < 12 implies #[trigger] ra.ep.dest_of(e) == rb.ep.dest_of(e) by {
            let j = sc.ep.dest_of(e);
            assert(sc.ep@[e] == j);
            assert(8 <= j < 12);
            assert(a.ep.dest_of(j) == b.ep.dest_of(j));
        }
        lemma_eslice_ep_same(ra, rb);
    }

    proof fn lemma_n_values() {
    }

    proof fn lemma_syms_closed() {
    }

    proof fn lemma_orbits_meet(p: Cube, t: Sym, k: Cube, s: Sym, u: Sym) {
    }

    proof fn lemma_identity_first() {
    }

    proof fn lemma_conj_identity(c: Cube, s: Sym) {
        s.lemma_conj_identity(c);
    }

    fn name() -> (r: &'static str)
        ensures
            r@ == "CoordESliceEP"@,
    {
        "CoordESliceEP"
    }

    fn n_values() -> (r: usize) {
        24
    }

    fn index(c: &Cube) -> (r: usize) {
        let indices = [Edge::FL.coord(), Edge::FR.coord(), Edge::BL.coord(), Edge::BR.coord()];
        proof {
            assert(indices@ =~= seq![9usize, 8, 10, 11]);
            assert forall|t: int| 0 <= t < 4 implies member(
                indices@,
                #[trigger] c.ep.dest_of(indices@[t] as int),
            ) by {
                let d = c.ep.dest_of(indices@[t] as int);
                assert(8 <= d < 12);
                assert(indices@[eslice_slot(d)] == d);
            }
        }
        let m = c.ep.mask(&indices);
        proof {
            assert forall|t: int| 0 <= t < 4 implies m.dest_of(t) == eslice_slot(
                c.ep.dest_of(eslice_edges()[t]),
            ) by {
                let d = c.ep.dest_of(indices@[t] as int);
                assert(8 <= d < 12);
                assert(indices@[eslice_slot(d)] == d);
            }
            assert(m@ =~= eslice_perm(*c));
            lemma_factorial_8();
            m.law_index_bound();
        }
        m.index()
    }

    fn rep(c: usize) -> (r: Cube)
        ensures
            Self::spec_index(r) == c,
    {
        proof {
            lemma_factorial_8();
        }
        let q = Perm::<4>::from_index(c);
        let slots: [usize; 4] = [9, 8, 10, 11];
        let q0 = q.dest(0);
        let q1 = q.dest(1);
        let q2 = q.dest(2);
        let q3 = q.dest(3);
        proof {
            assert(q0 < 4 && q1 < 4 && q2 < 4 && q3 < 4);
            assert(q0 != q1 && q0 != q2 && q0 != q3 && q1 != q2 && q1 != q3 && q2 != q3) by {
                assert(q.dest_of(0) != q.dest_of(1));
                assert(q.dest_of(0) != q.dest_of(2));
                assert(q.dest_of(0) != q.dest_of(3));
                assert(q.dest_of(1) != q.dest_of(2));
                assert(q.dest_of(1) != q.dest_of(3));
                assert(q.dest_of(2) != q.dest_of(3));
            }
        }
        let dests: [usize; 12] = [0, 1, 2, 3, 4, 5, 6, 7, slots[q1], slots[q0], slots[q2], slots[q3]];
        proof {
            assert forall|i: int| 0 <= i < 12 implies #[trigger] dests@[i] < 12 && (dests@[i] >= 8
                <==> i >= 8) by {}
            assert forall|i: int, j: int|
                0 <= i < 12 && 0 <= j < 12 && i != j implies #[trigger] dests@[i] != #[trigger] dests@[j] by {}
        }
        let ep = Perm::<12>::from_dests(&dests);
        let d = Cube::default();
        proof {
            Cube::lemma_solved_wf(d);
        }
        let r = Cube { eo: d.eo, co: d.co, ep, cp: d.cp };
        proof {
            assert forall|i: int| 0 <= i < 12 implies (#[trigger] r.ep.dest_of(i) >= 8 <==> i >= 8) by {
                assert(r.ep.dest_of(i) == dests@[i]);
            }
            assert(eslice_perm(r) =~= q@) by {
                assert(r.ep.dest_of(9) == dests@[9]);
                assert(r.ep.dest_of(8) == dests@[8]);
                assert(r.ep.dest_of(10) == dests@[10]);
                assert(r.ep.dest_of(11) == dests@[11]);
            }
        }
        r
    }

    fn conj(c: &Cube, s: Sym) -> (r: Cube) {
        s.conj_edges(c)
    }

    fn syms() -> (r: Vec<Sym>) {
        let r: Vec<Sym> = Vec::new();
        proof {
            assert(r@ =~= Self::spec_syms());
        }
        r
    }
}

} // verus!
