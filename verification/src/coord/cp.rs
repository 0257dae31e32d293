//! Permutation of the corners.
use vstd::prelude::*;

use crate::coord::{admissible, Coord};
use crate::cube::Cube;
use crate::math::factorial;
use crate::perm::{lehmer_index, Perm};
use crate::sym::{
    inverse_sym, is_conjugate, is_corner_conjugate, lemma_chain_valid, lemma_conjugate_parts,
    lemma_compose_conjugator_corners, lemma_conjugator_parts_inverse, lemma_corner_conjugate_formula,
    lemma_corner_conjugate_inverse, sym_compose, sym_inverse, Sym,
};

verus! {

/// The sixteen symmetries, in the order in which the corner and edge permutation
/// coordinates list them.
pub open spec fn all_syms() -> Seq<Sym> {
    seq![
        Sym::from_code(0),
        Sym::from_code(1),
        Sym::from_code(3),
        Sym::from_code(2),
        Sym::from_code(6),
        Sym::from_code(5),
        Sym::from_code(7),
        Sym::from_code(4),
        Sym::from_code(8),
        Sym::from_code(9),
        Sym::from_code(11),
        Sym::from_code(10),
        Sym::from_code(14),
        Sym::from_code(13),
        Sym::from_code(15),
        Sym::from_code(12),
    ]
}

/// The sixteen symmetries, in the order of `all_syms`.
pub fn all_syms_vec() -> (r: Vec<Sym>)
    ensures
        r@ == all_syms(),
        forall|i: int| 0 <= i < r@.len() ==> (#[trigger] r@[i]).valid(),
{
    let r = vec![
        Sym::UF(),
        Sym::UR(),
        Sym::UL(),
        Sym::UB(),
        Sym::DF(),
        Sym::DR(),
        Sym::DL(),
        Sym::DB(),
        Sym::UF2(),
        Sym::UR2(),
        Sym::UL2(),
        Sym::UB2(),
        Sym::DF2(),
        Sym::DR2(),
        Sym::DL2(),
        Sym::DB2(),
    ];
    proof {
        assert(r@ =~= all_syms());
    }
    r
}

/// `8! = 40320`
pub proof fn lemma_factorial_8()
    ensures
        factorial(8) == 40320,
        factorial(4) == 24,
{
    reveal_with_fuel(factorial, 9);
}

/// Coordinate based on CP of corners [0..8!)
pub struct CoordCP;

impl Coord for CoordCP {
    open spec fn needs_dr() -> bool {
        false
    }

    open spec fn spec_n_values() -> nat {
        40320
    }

    open spec fn spec_index(c: Cube) -> nat {
        lehmer_index(c.cp@)
    }

    open spec fn spec_conj(c: Cube, s: Sym) -> Cube {
        s.spec_conj_corners(c)
    }

    open spec fn spec_syms() -> Seq<Sym> {
        all_syms()
    }

    open spec fn reducible() -> bool {
        true
    }

    open spec fn complete(c: Cube) -> bool {
        true
    }

    open spec fn conj_defined(c: Cube, s: Sym) -> bool {
        is_corner_conjugate(Self::spec_conj(c, s), c, s.spec_conjugator())
    }

    proof fn law_syms_respect_index(a: Cube, b: Cube, s: Sym) {
        let sc = s.spec_conjugator();
        let ra = Self::spec_conj(a, s);
        let rb = Self::spec_conj(b, s);
        lemma_corner_conjugate_inverse(ra, a, sc);
        let tp = choose|p: Perm<8>| p.is_inverse_of(sc.cp);
        lemma_corner_conjugate_formula(ra, a, sc, tp);
        lemma_corner_conjugate_formula(rb, b, sc, tp);
        Perm::<8>::law_index_injective(a.cp, b.cp);
        ra.cp.lemma_ext(rb.cp);
    }

    proof fn lemma_n_values() {
    }

    proof fn lemma_conj_back(rep: Cube, s: Sym, c: Cube, r: Cube) {
        let sc = s.spec_conjugator();
        let tc = inverse_sym(s).spec_conjugator();
        lemma_conjugator_parts_inverse(s, sc, tc);
        let a = Self::spec_conj(rep, s);
        lemma_corner_conjugate_formula(a, rep, sc, tc.cp);
        lemma_conjugate_parts(r, c, tc);
        lemma_corner_conjugate_formula(r, c, tc, sc.cp);
        lemma_chain_valid(a.cp, sc.cp, rep.cp, tc.cp);
        Perm::<8>::law_index_injective(a.cp, c.cp);
        assert forall|i: int| 0 <= i < 8 implies r.cp.dest_of(i) == rep.cp.dest_of(i) by {
            let j = tc.cp.dest_of(i);
            assert(j < 8);
            assert(sc.cp.dest_of(j) == i);
            assert(c.cp.dest_of(j) == a.cp.dest_of(j));
            assert(rep.cp.dest_of(i) < 8);
        }
        r.cp.lemma_ext(rep.cp);
    }

    proof fn lemma_syms_closed() {
        lemma_all_syms_codes();
        assert forall|i: int, j: int|
            0 <= i < Self::spec_syms().len() && 0 <= j < Self::spec_syms().len() implies exists|l: int|
                0 <= l < Self::spec_syms().len() && Self::spec_syms()[l].code() == #[trigger] sym_compose(
                    sym_inverse(Self::spec_syms()[i].code()),
                    Self::spec_syms()[j].code(),
                ) by {
            let a = Self::spec_syms()[i].code();
            let b = Self::spec_syms()[j].code();
            crate::sym::law_sym_inverse(a);
            crate::sym::lemma_sym_compose_range(sym_inverse(a), b);
            let c = sym_compose(sym_inverse(a), b);
            assert(all_syms()[all_syms_position(c)].code() == c);
        }
    }

    proof fn lemma_orbits_meet(p: Cube, t: Sym, k: Cube, s: Sym, u: Sym) {
        let tc = t.spec_conjugator();
        let sc = s.spec_conjugator();
        let uc = u.spec_conjugator();
        let a = Self::spec_conj(p, t);
        let b = Self::spec_conj(k, s);
        let w = Self::spec_conj(p, u);
        lemma_corner_conjugate_inverse(a, p, tc);
        let ti = choose|q: Perm<8>| q.is_inverse_of(tc.cp);
        lemma_corner_conjugate_inverse(b, k, sc);
        let si = choose|q: Perm<8>| q.is_inverse_of(sc.cp);
        lemma_corner_conjugate_inverse(w, p, uc);
        let ui = choose|q: Perm<8>| q.is_inverse_of(uc.cp);
        lemma_corner_conjugate_formula(a, p, tc, ti);
        lemma_corner_conjugate_formula(b, k, sc, si);
        lemma_corner_conjugate_formula(w, p, uc, ui);
        Perm::<8>::lemma_inverse_valid(ti, tc.cp);
        Perm::<8>::lemma_inverse_valid(ui, uc.cp);
        lemma_compose_conjugator_corners(s, t, u, sc, tc, uc, si);
        lemma_chain_valid(a.cp, tc.cp, p.cp, ti);
        lemma_chain_valid(b.cp, sc.cp, k.cp, si);
        Perm::<8>::law_index_injective(a.cp, b.cp);
        assert forall|j: int| 0 <= j < 8 implies w.cp.dest_of(j) == k.cp.dest_of(j) by {
            let x = si.dest_of(j);
            assert(0 <= x < 8);
            assert(sc.cp.dest_of(x) == j);
            let y0 = p.cp.dest_of(tc.cp.dest_of(x));
            assert(0 <= tc.cp.dest_of(x) < 8);
            assert(0 <= y0 < 8);
            let v = ti.dest_of(y0);
            assert(0 <= v < 8);
            let z = sc.cp.dest_of(v);
            assert(0 <= z < 8);
            assert(si.dest_of(z) == v);
            assert(tc.cp.dest_of(v) == y0);
            assert(uc.cp.dest_of(z) == y0);
            assert(ui.dest_of(y0) == z);
            assert(w.cp.dest_of(j) == z);
            assert(a.cp.dest_of(x) == v);
            assert(b.cp.dest_of(x) == si.dest_of(k.cp.dest_of(j)));
            assert(0 <= k.cp.dest_of(j) < 8);
            assert(sc.cp.dest_of(si.dest_of(k.cp.dest_of(j))) == k.cp.dest_of(j));
        }
        w.cp.lemma_ext(k.cp);
    }

    proof fn lemma_identity_first() {
        Sym::lemma_code_of(0);
    }

    proof fn lemma_conj_identity(c: Cube, s: Sym) {
        s.lemma_conj_identity(c);
    }

    fn name() -> (r: &'static str)
        ensures
            r@ == "CoordCP"@,
    {
        "CoordCP"
    }

    fn n_values() -> (r: usize) {
        40320
    }

    fn index(c: &Cube) -> (r: usize) {
        proof {
            lemma_factorial_8();
            c.cp.law_index_bound();
        }
        c.cp.index()
    }

    fn rep(c: usize) -> (r: Cube) {
        let d = Cube::default();
        proof {
            Cube::lemma_solved_wf(d);
            lemma_factorial_8();
        }
        Cube { eo: d.eo, co: d.co, ep: d.ep, cp: Perm::<8>::from_index(c) }
    }

    fn conj(c: &Cube, s: Sym) -> (r: Cube) {
        s.conj_corners(c)
    }

    fn syms() -> (r: Vec<Sym>) {
        all_syms_vec()
    }
}

/// The corner permutation coordinate reads a coset: cubes with the same coordinate, each
/// followed by the same cube `m`, have the same coordinate again.
pub proof fn law_compose_respects_cp(a: Cube, b: Cube, m: Cube, ra: Cube, rb: Cube)
    requires
        a.wf(),
        b.wf(),
        CoordCP::spec_index(a) == CoordCP::spec_index(b),
        ra.is_compose_of(a, m),
        rb.is_compose_of(b, m),
    ensures
        CoordCP::spec_index(ra) == CoordCP::spec_index(rb),
{
    Perm::<8>::law_index_injective(a.cp, b.cp);
    ra.cp.lemma_ext(rb.cp);
}

/// Where the symmetry with code `c` stands in `all_syms`.
pub open spec fn all_syms_position(c: int) -> int {
    if c == 2 {
        3
    } else if c == 3 {
        2
    } else if c == 4 {
        7
    } else if c == 6 {
        4
    } else if c == 7 {
        6
    } else if c == 10 {
        11
    } else if c == 11 {
        10
    } else if c == 12 {
        15
    } else if c == 14 {
        12
    } else if c == 15 {
        14
    } else {
        c
    }
}

/// Each of the sixteen codes stands in `all_syms` at its position.
pub proof fn lemma_all_syms_codes()
    ensures
        all_syms().len() == 16,
        forall|c: int| 0 <= c < 16 ==> 0 <= #[trigger] all_syms_position(c) < 16 && all_syms()[all_syms_position(c)].code() == c,
        forall|i: int| 0 <= i < 16 ==> 0 <= #[trigger] all_syms()[i].code() < 16,
{
    assert forall|c: int| 0 <= c < 16 implies 0 <= #[trigger] all_syms_position(c) < 16 && all_syms()[all_syms_position(c)].code() == c by {
        Sym::lemma_code_of(c);
    }
    assert forall|i: int| 0 <= i < 16 implies 0 <= #[trigger] all_syms()[i].code() < 16 by {
        if i == 0 {
            Sym::lemma_code_of(0);
        } else if i == 1 {
            Sym::lemma_code_of(1);
        } else if i == 2 {
            Sym::lemma_code_of(3);
        } else if i == 3 {
            Sym::lemma_code_of(2);
        } else if i == 4 {
            Sym::lemma_code_of(6);
        } else if i == 5 {
            Sym::lemma_code_of(5);
        } else if i == 6 {
            Sym::lemma_code_of(7);
        } else if i == 7 {
            Sym::lemma_code_of(4);
        } else if i == 8 {
            Sym::lemma_code_of(8);
        } else if i == 9 {
            Sym::lemma_code_of(9);
        } else if i == 10 {
            Sym::lemma_code_of(11);
        } else if i == 11 {
            Sym::lemma_code_of(10);
        } else if i == 12 {
            Sym::lemma_code_of(14);
        } else if i == 13 {
            Sym::lemma_code_of(13);
        } else if i == 14 {
            Sym::lemma_code_of(15);
        } else {
            Sym::lemma_code_of(12);
        }
    }
}

} // verus!
