//! Corner orientation of the first seven corners.
use vstd::prelude::*;

use crate::coord::{admissible, Coord};
use crate::cube::{
    co_index, lane, lemma_co_determined, lemma_lane_ext, lemma_twist_total_perm, twist_total, Cube,
    CO,
};
use crate::perm::Perm;
use crate::sym::{
    inverse_sym, is_corner_conjugate, lemma_compose_conjugator_corners, lemma_conjugate_parts,
    lemma_conjugator_parts_inverse, lemma_corner_conjugate_formula, lemma_corner_conjugate_inverse,
    sym_compose, sym_inverse, Sym,
};

verus! {

/// Coordinate based on CO of 7 corners [0..3^7)
pub struct CoordCO;

impl Coord for CoordCO {
    open spec fn needs_dr() -> bool {
        false
    }

    open spec fn spec_n_values() -> nat {
        2187
    }

    open spec fn spec_index(c: Cube) -> nat {
        co_index(c.co.0, 7)
    }

    open spec fn spec_conj(c: Cube, s: Sym) -> Cube {
        s.spec_conj_corners(c)
    }

    open spec fn spec_syms() -> Seq<Sym> {
        seq![
            Sym::from_code(0),
            Sym::from_code(1),
            Sym::from_code(3),
            Sym::from_code(2),
            Sym::from_code(6),
            Sym::from_code(5),
            Sym::from_code(7),
            Sym::from_code(4),
        ]
    }

    open spec fn reducible() -> bool {
        true
    }

    open spec fn complete(c: Cube) -> bool {
        twist_total(c.co.0, 8) % 3 == 0
    }

    open spec fn conj_defined(c: Cube, s: Sym) -> bool {
        is_corner_conjugate(Self::spec_conj(c, s), c, s.spec_conjugator())
    }

    proof fn lemma_conj_back(rep: Cube, s: Sym, c: Cube, r: Cube) {
        let sc = s.spec_conjugator();
        let tc = inverse_sym(s).spec_conjugator();
        lemma_conjugator_parts_inverse(s, sc, tc);
        let a = Self::spec_conj(rep, s);
        lemma_corner_conjugate_formula(a, rep, sc, tc.cp);
        lemma_conjugate_parts(r, c, tc);
        lemma_corner_conjugate_formula(r, c, tc, sc.cp);
        lemma_twist_total_perm(rep.co.0, a.co.0, tc.cp);
        lemma_co_determined(a.co.0, c.co.0);
        assert forall|j: int| 0 <= j < 8 implies lane(r.co.0, j) == lane(rep.co.0, j) by {
            let k = tc.cp.dest_of(j);
            assert(k < 8);
            assert(sc.cp.dest_of(k) == j);
            assert(lane(r.co.0, sc.cp.dest_of(k)) == lane(c.co.0, k));
            assert(lane(a.co.0, tc.cp.dest_of(j)) == lane(rep.co.0, j));
        }
        lemma_lane_ext(r.co.0, rep.co.0);
    }

    proof fn law_syms_respect_index(a: Cube, b: Cube, s: Sym) {
        let sc = s.spec_conjugator();
        let ra = Self::spec_conj(a, s);
        let rb = Self::spec_conj(b, s);
        lemma_corner_conjugate_inverse(ra, a, sc);
        let tp = choose|p: Perm<8>| p.is_inverse_of(sc.cp);
        lemma_corner_conjugate_formula(ra, a, sc, tp);
        lemma_corner_conjugate_formula(rb, b, sc, tp);
        Perm::<8>::lemma_inverse_valid(tp, sc.cp);
        lemma_co_determined(a.co.0, b.co.0);
        assert forall|j: int| 0 <= j < 8 implies lane(ra.co.0, j) == lane(rb.co.0, j) by {
            tp.lemma_has_source(j);
            let k = choose|k: int| 0 <= k < 8 && tp.dest_of(k) == j;
            assert(lane(ra.co.0, tp.dest_of(k)) == lane(a.co.0, k));
            assert(lane(rb.co.0, tp.dest_of(k)) == lane(b.co.0, k));
        }
        lemma_lane_ext(ra.co.0, rb.co.0);
    }

    proof fn lemma_n_values() {
    }

    proof fn lemma_syms_closed() {
        assert forall|i: int, j: int|
            0 <= i < Self::spec_syms().len() && 0 <= j < Self::spec_syms().len() implies exists|l: int|
                0 <= l < Self::spec_syms().len() && Self::spec_syms()[l].code() == #[trigger] sym_compose(
                    sym_inverse(Self::spec_syms()[i].code()),
                    Self::spec_syms()[j].code(),
                ) by {
            lemma_co_syms_closed(i, j);
        }
    }

    proof fn lemma_orbits_meet(p: Cube, t: Sym, k: Cube, s: Sym, u: Sym) {
        let tc = t.spec_conjugator();
        let sc = s.spec_conjugator();
        let uc = u.spec_conjugator();
        let a = Self::spec_conj(p, t);
        let b = Self::spec_conj(k, s);
        let w = Self::spec_conj(p, u);
        lemma_corner_conjugate_inverse(a, p, tc);
        let ti = choose|q: Perm<8>| q.is_inverse_of(tc.cp);
        lemma_corner_conjugate_inverse(b, k, sc);
        let si = choose|q: Perm<8>| q.is_inverse_of(sc.cp);
        lemma_corner_conjugate_inverse(w, p, uc);
        let ui = choose|q: Perm<8>| q.is_inverse_of(uc.cp);
        lemma_corner_conjugate_formula(a, p, tc, ti);
        lemma_corner_conjugate_formula(b, k, sc, si);
        lemma_corner_conjugate_formula(w, p, uc, ui);
        Perm::<8>::lemma_inverse_valid(ti, tc.cp);
        lemma_compose_conjugator_corners(s, t, u, sc, tc, uc, si);
        lemma_twist_total_perm(p.co.0, a.co.0, ti);
        lemma_twist_total_perm(k.co.0, b.co.0, si);
        lemma_co_determined(a.co.0, b.co.0);
        assert forall|j: int| 0 <= j < 8 implies lane(w.co.0, j) == lane(k.co.0, j) by {
            let x = si.dest_of(j);
            assert(0 <= x < 8);
            let y = tc.cp.dest_of(x);
            assert(0 <= y < 8);
            assert(uc.cp.dest_of(j) == y);
            assert(ti.dest_of(y) == x);
            assert(lane(a.co.0, ti.dest_of(y)) == lane(p.co.0, y));
            assert(lane(b.co.0, si.dest_of(j)) == lane(k.co.0, j));
            assert(ui.dest_of(uc.cp.dest_of(j)) == j);
            assert(lane(w.co.0, ui.dest_of(y)) == lane(p.co.0, y));
        }
        lemma_lane_ext(w.co.0, k.co.0);
    }

    proof fn lemma_identity_first() {
        Sym::lemma_code_of(0);
    }

    proof fn lemma_conj_identity(c: Cube, s: Sym) {
        s.lemma_conj_identity(c);
    }

    fn name() -> (r: &'static str)
        ensures
            r@ == "CoordCO"@,
    {
        "CoordCO"
    }

    fn n_values() -> (r: usize) {
        2187
    }

    fn index(c: &Cube) -> (r: usize) {
        c.co.coord()
    }

    fn rep(c: usize) -> (r: Cube) {
        let d = Cube::default();
        proof {
            Cube::lemma_solved_wf(d);
        }
        Cube { eo: d.eo, co: CO::from_coord(c), ep: d.ep, cp: d.cp }
    }

    fn conj(c: &Cube, s: Sym) -> (r: Cube) {
        s.conj_corners(c)
    }

    fn syms() -> (r: Vec<Sym>) {
        let r = vec![
            Sym::UF(),
            Sym::UR(),
            Sym::UL(),
            Sym::UB(),
            Sym::DF(),
            Sym::DR(),
            Sym::DL(),
            Sym::DB(),
        ];
        proof {
            assert(r@ =~= Self::spec_syms());
        }
        r
    }
}

/// The corner orientation coordinate reads a coset: cubes with the same coordinate (whose
/// twists sum as on reachable cubes), each followed by the same cube `m`, have the same
/// coordinate again.
pub proof fn law_compose_respects_co(a: Cube, b: Cube, m: Cube, ra: Cube, rb: Cube)
    requires
        a.wf(),
        b.wf(),
        CoordCO::complete(a),
        CoordCO::complete(b),
        CoordCO::spec_index(a) == CoordCO::spec_index(b),
        ra.is_compose_of(a, m),
        rb.is_compose_of(b, m),
    ensures
        CoordCO::spec_index(ra) == CoordCO::spec_index(rb),
{
    lemma_co_determined(a.co.0, b.co.0);
}

/// The corner orientation symmetries are closed under taking the inverse of one followed
/// by another.
#[verifier::rlimit(100)]
proof fn lemma_co_syms_closed(i: int, j: int)
    requires
        0 <= i < 8,
        0 <= j < 8,
    ensures
        exists|l: int|
            0 <= l < CoordCO::spec_syms().len() && #[trigger] CoordCO::spec_syms()[l].code()
                == sym_compose(sym_inverse(CoordCO::spec_syms()[i].code()), CoordCO::spec_syms()[j].code()),
{
    let codes = seq![0int, 1, 3, 2, 6, 5, 7, 4];
    assert forall|l: int| 0 <= l < 8 implies #[trigger] CoordCO::spec_syms()[l].code() == codes[l] by {
        Sym::lemma_code_of(codes[l]);
    }
    let c = sym_compose(sym_inverse(codes[i]), codes[j]);
    let l = if c == 0 { 0int } else if c == 1 { 1 } else if c == 3 { 2 } else if c == 2 { 3 } else if c
        == 6 { 4 } else if c == 5 { 5 } else if c == 7 { 6 } else { 7 };
    assert(codes[l] == c);
    assert(CoordCO::spec_syms()[l].code() == c);
}

} // verus!
