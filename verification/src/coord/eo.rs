//! Edge orientation of the first eleven edges.
use vstd::prelude::*;

use crate::coord::{admissible, Coord};
use crate::bitset::{bit, lemma_bit_ext, lemma_popcount_perm, popcount};
use crate::cube::{lemma_eo_determined, Cube, EO};
use crate::perm::Perm;
use crate::sym::{
    inverse_sym, is_edge_conjugate, lemma_compose_conjugator_edges, lemma_conjugate_parts,
    lemma_conjugator_parts_inverse, lemma_edge_conjugate_formula, lemma_edge_conjugate_inverse,
    sym_compose, sym_inverse, Sym,
};

verus! {

/// Coordinate based on EO of 11 edges [0..2^11)
pub struct CoordEO;

impl Coord for CoordEO {
    open spec fn needs_dr() -> bool {
        false
    }

    open spec fn spec_n_values() -> nat {
        2048
    }

    open spec fn spec_index(c: Cube) -> nat {
        (c.eo.0 % 2048) as nat
    }

    open spec fn spec_conj(c: Cube, s: Sym) -> Cube {
        s.spec_conj_edges(c)
    }

    open spec fn spec_syms() -> Seq<Sym> {
        seq![
            Sym::from_code(0),
            Sym::from_code(2),
            Sym::from_code(6),
            Sym::from_code(4),
            Sym::from_code(8),
            Sym::from_code(10),
            Sym::from_code(14),
            Sym::from_code(12),
        ]
    }

    open spec fn reducible() -> bool {
        true
    }

    open spec fn complete(c: Cube) -> bool {
        popcount(c.eo.0, 12) % 2 == 0
    }

    open spec fn conj_defined(c: Cube, s: Sym) -> bool {
        is_edge_conjugate(Self::spec_conj(c, s), c, s.spec_conjugator())
    }

    proof fn lemma_conj_back(rep: Cube, s: Sym, c: Cube, r: Cube) {
        let sc = s.spec_conjugator();
        let tc = inverse_sym(s).spec_conjugator();
        lemma_conjugator_parts_inverse(s, sc, tc);
        let a = Self::spec_conj(rep, s);
        lemma_edge_conjugate_formula(a, rep, sc, tc.ep);
        lemma_conjugate_parts(r, c, tc);
        lemma_edge_conjugate_formula(r, c, tc, sc.ep);
        let d = |i: int| tc.ep.dest_of(i);
        assert forall|i: int| 0 <= i < 12 implies 0 <= #[trigger] d(i) < 12 by {
            assert(tc.ep.dest_of(i) < 12);
        }
        assert forall|i: int, j: int| 0 <= i < 12 && 0 <= j < 12 && i != j implies #[trigger] d(i)
            != #[trigger] d(j) by {
            assert(tc.ep.dest_of(i) != tc.ep.dest_of(j));
        }
        lemma_popcount_perm(rep.eo.0, a.eo.0, d, 12);
        lemma_eo_determined(a.eo.0, c.eo.0);
        assert forall|j: int| 0 <= j < 16 implies bit(r.eo.0, j) == bit(rep.eo.0, j) by {
            if j < 12 {
                let k = tc.ep.dest_of(j);
                assert(k < 12);
                assert(sc.ep.dest_of(k) == j);
                assert(bit(r.eo.0, sc.ep.dest_of(k)) == bit(c.eo.0, k));
                assert(bit(a.eo.0, tc.ep.dest_of(j)) == bit(rep.eo.0, j));
            }
        }
        lemma_bit_ext(r.eo.0, rep.eo.0);
    }

    proof fn law_syms_respect_index(a: Cube, b: Cube, s: Sym) {
        let sc = s.spec_conjugator();
        let ra = Self::spec_conj(a, s);
        let rb = Self::spec_conj(b, s);
        lemma_edge_conjugate_inverse(ra, a, sc);
        let tp = choose|p: Perm<12>| p.is_inverse_of(sc.ep);
        lemma_edge_conjugate_formula(ra, a, sc, tp);
        lemma_edge_conjugate_formula(rb, b, sc, tp);
        Perm::<12>::lemma_inverse_valid(tp, sc.ep);
        lemma_eo_determined(a.eo.0, b.eo.0);
        assert forall|j: int| 0 <= j < 16 implies bit(ra.eo.0, j) == bit(rb.eo.0, j) by {
            if j < 12 {
                tp.lemma_has_source(j);
                let k = choose|k: int| 0 <= k < 12 && tp.dest_of(k) == j;
                assert(bit(ra.eo.0, tp.dest_of(k)) == bit(a.eo.0, k));
                assert(bit(rb.eo.0, tp.dest_of(k)) == bit(b.eo.0, k));
            }
        }
        lemma_bit_ext(ra.eo.0, rb.eo.0);
    }

    proof fn lemma_n_values() {
    }

    proof fn lemma_syms_closed() {
        assert forall|i: int, j: int|
            0 <= i < Self::spec_syms().len() && 0 <= j < Self::spec_syms().len() implies exists|l: int|
                0 <= l < Self::spec_syms().len() && Self::spec_syms()[l].code() == #[trigger] sym_compose(
                    sym_inverse(Self::spec_syms()[i].code()),
                    Self::spec_syms()[j].code(),
                ) by {
            lemma_eo_syms_closed(i, j);
        }
    }

    proof fn lemma_orbits_meet(p: Cube, t: Sym, k: Cube, s: Sym, u: Sym) {
        let tc = t.spec_conjugator();
        let sc = s.spec_conjugator();
        let uc = u.spec_conjugator();
        let a = Self::spec_conj(p, t);
        let b = Self::spec_conj(k, s);
        let w = Self::spec_conj(p, u);
        lemma_edge_conjugate_inverse(a, p, tc);
        let ti = choose|q: Perm<12>| q.is_inverse_of(tc.ep);
        lemma_edge_conjugate_inverse(b, k, sc);
        let si = choose|q: Perm<12>| q.is_inverse_of(sc.ep);
        lemma_edge_conjugate_inverse(w, p, uc);
        let ui = choose|q: Perm<12>| q.is_inverse_of(uc.ep);
        lemma_edge_conjugate_formula(a, p, tc, ti);
        lemma_edge_conjugate_formula(b, k, sc, si);
        lemma_edge_conjugate_formula(w, p, uc, ui);
        Perm::<12>::lemma_inverse_valid(ti, tc.ep);
        lemma_compose_conjugator_edges(s, t, u, sc, tc, uc, si);
        let dt = |i: int| ti.dest_of(i);
        assert forall|i: int| 0 <= i < 12 implies 0 <= #[trigger] dt(i) < 12 by {
        }
        assert forall|i: int, j: int| 0 <= i < 12 && 0 <= j < 12 && i != j implies #[trigger] dt(i)
            != #[trigger] dt(j) by {
            assert(ti.dest_of(i) != ti.dest_of(j));
        }
        lemma_popcount_perm(p.eo.0, a.eo.0, dt, 12);
        let ds = |i: int| si.dest_of(i);
        assert forall|i: int| 0 <= i < 12 implies 0 <= #[trigger] ds(i) < 12 by {
        }
        assert forall|i: int, j: int| 0 <= i < 12 && 0 <= j < 12 && i != j implies #[trigger] ds(i)
            != #[trigger] ds(j) by {
            assert(si.dest_of(i) != si.dest_of(j));
        }
        lemma_popcount_perm(k.eo.0, b.eo.0, ds, 12);
        lemma_eo_determined(a.eo.0, b.eo.0);
        assert forall|j: int| 0 <= j < 16 implies bit(w.eo.0, j) == bit(k.eo.0, j) by {
            if j < 12 {
                let x = si.dest_of(j);
                assert(0 <= x < 12);
                let y = tc.ep.dest_of(x);
                assert(0 <= y < 12);
                assert(uc.ep.dest_of(j) == y);
                assert(ti.dest_of(y) == x);
                assert(bit(a.eo.0, ti.dest_of(y)) == bit(p.eo.0, y));
                assert(bit(b.eo.0, si.dest_of(j)) == bit(k.eo.0, j));
                assert(ui.dest_of(uc.ep.dest_of(j)) == j);
                assert(bit(w.eo.0, ui.dest_of(y)) == bit(p.eo.0, y));
            }
        }
        lemma_bit_ext(w.eo.0, k.eo.0);
    }

    proof fn lemma_identity_first() {
        Sym::lemma_code_of(0);
    }

    proof fn lemma_conj_identity(c: Cube, s: Sym) {
        s.lemma_conj_identity(c);
    }

    fn name() -> (r: &'static str)
        ensures
            r@ == "CoordEO"@,
    {
        "CoordEO"
    }

    fn n_values() -> (r: usize) {
        2048
    }

    fn index(c: &Cube) -> (r: usize) {
        c.eo.coord()
    }

    fn rep(c: usize) -> (r: Cube) {
        let d = Cube::default();
        proof {
            Cube::lemma_solved_wf(d);
        }
        Cube { eo: EO::from_coord(c), co: d.co, ep: d.ep, cp: d.cp }
    }

    fn conj(c: &Cube, s: Sym) -> (r: Cube) {
        s.conj_edges(c)
    }

    fn syms() -> (r: Vec<Sym>) {
        let r = vec![
            Sym::UF(),
            Sym::UB(),
            Sym::DF(),
            Sym::DB(),
            Sym::UF2(),
            Sym::UB2(),
            Sym::DF2(),
            Sym::DB2(),
        ];
        proof {
            assert(r@ =~= Self::spec_syms());
        }
        r
    }
}

/// The edge orientation coordinate reads a coset: cubes with the same coordinate (with an
/// even number of flips), each followed by the same cube `m`, have the same coordinate
/// again.
pub proof fn law_compose_respects_eo(a: Cube, b: Cube, m: Cube, ra: Cube, rb: Cube)
    requires
        a.wf(),
        b.wf(),
        CoordEO::complete(a),
        CoordEO::complete(b),
        CoordEO::spec_index(a) == CoordEO::spec_index(b),
        ra.is_compose_of(a, m),
        rb.is_compose_of(b, m),
    ensures
        CoordEO::spec_index(ra) == CoordEO::spec_index(rb),
{
    lemma_eo_determined(a.eo.0, b.eo.0);
    assert forall|j: int| 0 <= j < 16 implies bit(ra.eo.0, j) == bit(rb.eo.0, j) by {
        assert(bit(ra.eo.0, j) == (EO::moved_bit(a.eo.0, m.ep, j) != bit(m.eo.0, j)));
        assert(bit(rb.eo.0, j) == (EO::moved_bit(b.eo.0, m.ep, j) != bit(m.eo.0, j)));
    }
    lemma_bit_ext(ra.eo.0, rb.eo.0);
}

/// The edge orientation symmetries are closed under taking the inverse of one followed by
/// another.
#[verifier::rlimit(100)]
proof fn lemma_eo_syms_closed(i: int, j: int)
    requires
        0 <= i < 8,
        0 <= j < 8,
    ensures
        exists|l: int|
            0 <= l < CoordEO::spec_syms().len() && #[trigger] CoordEO::spec_syms()[l].code()
                == sym_compose(sym_inverse(CoordEO::spec_syms()[i].code()), CoordEO::spec_syms()[j].code()),
{
    let codes = seq![0int, 2, 6, 4, 8, 10, 14, 12];
    assert forall|l: int| 0 <= l < 8 implies #[trigger] CoordEO::spec_syms()[l].code() == codes[l] by {
        Sym::lemma_code_of(codes[l]);
    }
    let c = sym_compose(sym_inverse(codes[i]), codes[j]);
    let l = if c == 0 { 0int } else if c == 2 { 1 } else if c == 6 { 2 } else if c == 4 { 3 } else if c
        == 8 { 4 } else if c == 10 { 5 } else if c == 14 { 6 } else { 7 };
    assert(codes[l] == c);
    assert(CoordEO::spec_syms()[l].code() == c);
}

} // verus!
