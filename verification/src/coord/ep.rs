//! Permutation of the eight edges outside the E slice.
use vstd::prelude::*;

use crate::coord::cp::{all_syms, all_syms_position, all_syms_vec, lemma_all_syms_codes, lemma_factorial_8};
use crate::coord::{admissible, Coord};
use crate::cube::{keeps_eslice, Cube};
use crate::perm::{distinct_below, lehmer_index, member, Perm};
use crate::piece::Edge;
use crate::lehmer::{is_perm_seq, lemma_lehmer_index_injective};
use crate::sym::{
    inverse_sym, is_edge_conjugate, lemma_chain_valid, lemma_conjugate_parts,
    lemma_compose_conjugator_edges, lemma_conjugator_parts_inverse, lemma_edge_conjugate_formula,
    lemma_edge_conjugate_inverse, sym_compose, sym_inverse, Sym,
};

verus! {

/// Coordinate based on the permutation of the non-E-slice pieces in phase 2 [0..8!).
pub struct CoordEP;

impl Coord for CoordEP {
    open spec fn needs_dr() -> bool {
        true
    }

    open spec fn spec_n_values() -> nat {
        40320
    }

    open spec fn spec_index(c: Cube) -> nat {
        lehmer_index(c.ep@.subrange(0, 8))
    }

    open spec fn spec_conj(c: Cube, s: Sym) -> Cube {
        s.spec_conj_edges(c)
    }

    open spec fn spec_syms() -> Seq<Sym> {
        all_syms()
    }

    open spec fn reducible() -> bool {
        true
    }

    open spec fn complete(c: Cube) -> bool {
        true
    }

    open spec fn conj_defined(c: Cube, s: Sym) -> bool {
        is_edge_conjugate(Self::spec_conj(c, s), c, s.spec_conjugator())
    }

    proof fn lemma_conj_back(rep: Cube, s: Sym, c: Cube, r: Cube) {
        let sc = s.spec_conjugator();
        let tc = inverse_sym(s).spec_conjugator();
        lemma_conjugator_parts_inverse(s, sc, tc);
        s.lemma_dests_inverse();
        s.lemma_edge_dests_keep_eslice();
        inverse_sym(s).lemma_edge_dests_keep_eslice();
        let a = Self::spec_conj(rep, s);
        lemma_edge_conjugate_formula(a, rep, sc, tc.ep);
        lemma_conjugate_parts(r, c, tc);
        lemma_edge_conjugate_formula(r, c, tc, sc.ep);
        lemma_chain_valid(a.ep, sc.ep, rep.ep, tc.ep);
        let sa = a.ep@.subrange(0, 8);
        let sx = c.ep@.subrange(0, 8);
        assert(is_perm_seq(sa)) by {
            assert forall|k: int| 0 <= k < 8 implies 0 <= #[trigger] sa[k] < 8 by {
                let j = sc.ep.dest_of(k);
                assert(sc.ep@[k] == j);
                assert(j < 8);
                assert(rep.ep.dest_of(j) < 8);
                assert(tc.ep@[rep.ep.dest_of(j)] == tc.ep.dest_of(rep.ep.dest_of(j)));
            }
            assert forall|k: int, l: int| 0 <= k < 8 && 0 <= l < 8 && k != l implies sa[k] != sa[l] by {
                assert(a.ep.dest_of(k) != a.ep.dest_of(l));
            }
        }
        assert(is_perm_seq(sx)) by {
            assert forall|k: int| 0 <= k < 8 implies 0 <= #[trigger] sx[k] < 8 by {
                assert(c.ep.dest_of(k) < 8);
            }
            assert forall|k: int, l: int| 0 <= k < 8 && 0 <= l < 8 && k != l implies sx[k] != sx[l] by {
                assert(c.ep.dest_of(k) != c.ep.dest_of(l));
            }
        }
        lemma_lehmer_index_injective(sa, sx);
        assert forall|i: int| 0 <= i < 8 implies r.ep.dest_of(i) == rep.ep.dest_of(i) by {
            let j = tc.ep.dest_of(i);
            assert(tc.ep@[i] == j);
            assert(j < 8);
            assert(sc.ep.dest_of(j) == i);
            assert(sa[j] == sx[j]);
            assert(c.ep.dest_of(j) == a.ep.dest_of(j));
            assert(rep.ep.dest_of(i) < 12);
        }
        assert(r.ep@.subrange(0, 8) =~= rep.ep@.subrange(0, 8));
    }

    proof fn law_syms_respect_index(a: Cube, b: Cube, s: Sym) {
        let sc = s.spec_conjugator();
        let ra = Self::spec_conj(a, s);
        let rb = Self::spec_conj(b, s);
        s.lemma_edge_dests_keep_eslice();
        lemma_edge_conjugate_inverse(ra, a, sc);
        let tp = choose|p: Perm<12>| p.is_inverse_of(sc.ep);
        lemma_edge_conjugate_formula(ra, a, sc, tp);
        lemma_edge_conjugate_formula(rb, b, sc, tp);
        let sa = a.ep@.subrange(0, 8);
        let sb = b.ep@.subrange(0, 8);
        assert(is_perm_seq(sa)) by {
            assert forall|k: int| 0 <= k < 8 implies 0 <= #[trigger] sa[k] < 8 by {
                assert(a.ep.dest_of(k) < 8);
            }
            assert forall|k: int, l: int| 0 <= k < 8 && 0 <= l < 8 && k != l implies sa[k] != sa[l] by {
                assert(a.ep.dest_of(k) != a.ep.dest_of(l));
            }
        }
        assert(is_perm_seq(sb)) by {
            assert forall|k: int| 0 <= k < 8 implies 0 <= #[trigger] sb[k] < 8 by {
                assert(b.ep.dest_of(k) < 8);
            }
            assert forall|k: int, l: int| 0 <= k < 8 && 0 <= l < 8 && k != l implies sb[k] != sb[l] by {
                assert(b.ep.dest_of(k) != b.ep.dest_of(l));
            }
        }
        lemma_lehmer_index_injective(sa, sb);
        assert forall|k: int| 0 <= k < 8 implies ra.ep.dest_of(k) == rb.ep.dest_of(k) by {
            let j = sc.ep.dest_of(k);
            assert(sc.ep@[k] == j);
            assert(j < 8);
            assert(sa[j] == sb[j]);
        }
        assert(ra.ep@.subrange(0, 8) =~= rb.ep@.subrange(0, 8));
    }

    proof fn lemma_n_values() {
    }

    proof fn lemma_syms_closed() {
        lemma_all_syms_codes();
        assert forall|i: int, j: int|
            0 <= i < Self::spec_syms().len() && 0 <= j < Self::spec_syms().len() implies exists|l: int|
                0 <= l < Self::spec_syms().len() && Self::spec_syms()[l].code() == #[trigger] sym_compose(
                    sym_inverse(Self::spec_syms()[i].code()),
                    Self::spec_syms()[j].code(),
                ) by {
            let a = Self::spec_syms()[i].code();
            let b = Self::spec_syms()[j].code();
            crate::sym::law_sym_inverse(a);
            crate::sym::lemma_sym_compose_range(sym_inverse(a), b);
            let c = sym_compose(sym_inverse(a), b);
            assert(all_syms()[all_syms_position(c)].code() == c);
        }
    }

    proof fn lemma_orbits_meet(p: Cube, t: Sym, k: Cube, s: Sym, u: Sym) {
        let tc = t.spec_conjugator();
        let sc = s.spec_conjugator();
        let uc = u.spec_conjugator();
        let a = Self::spec_conj(p, t);
        let b = Self::spec_conj(k, s);
        let w = Self::spec_conj(p, u);
        lemma_edge_conjugate_inverse(a, p, tc);
        let ti = choose|q: Perm<12>| q.is_inverse_of(tc.ep);
        lemma_edge_conjugate_inverse(b, k, sc);
        let si = choose|q: Perm<12>| q.is_inverse_of(sc.ep);
        lemma_edge_conjugate_inverse(w, p, uc);
        let ui = choose|q: Perm<12>| q.is_inverse_of(uc.ep);
        lemma_edge_conjugate_formula(a, p, tc, ti);
        lemma_edge_conjugate_formula(b, k, sc, si);
        lemma_edge_conjugate_formula(w, p, uc, ui);
        Perm::<12>::lemma_inverse_valid(ti, tc.ep);
        Perm::<12>::lemma_inverse_valid(ui, uc.ep);
        lemma_compose_conjugator_edges(s, t, u, sc, tc, uc, si);
        lemma_chain_valid(a.ep, tc.ep, p.ep, ti);
        lemma_chain_valid(b.ep, sc.ep, k.ep, si);
        s.lemma_edge_dests_keep_eslice();
        t.lemma_edge_dests_keep_eslice();
        assert forall|i: int| 0 <= i < 12 implies (#[trigger] sc.ep.dest_of(i) >= 8 <==> i >= 8) by {
            assert(sc.ep@[i] == sc.ep.dest_of(i));
        }
        assert forall|i: int| 0 <= i < 12 implies (#[trigger] tc.ep.dest_of(i) >= 8 <==> i >= 8) by {
            assert(tc.ep@[i] == tc.ep.dest_of(i));
        }
        assert forall|y: int| 0 <= y < 8 implies #[trigger] si.dest_of(y) < 8 by {
            assert(sc.ep.dest_of(si.dest_of(y)) == y);
        }
        assert forall|y: int| 0 <= y < 8 implies #[trigger] ti.dest_of(y) < 8 by {
            assert(tc.ep.dest_of(ti.dest_of(y)) == y);
        }
        let sa = a.ep@.subrange(0, 8);
        let sb = b.ep@.subrange(0, 8);
        assert(is_perm_seq(sa)) by {
            assert forall|x: int| 0 <= x < 8 implies 0 <= #[trigger] sa[x] < 8 by {
                assert(tc.ep.dest_of(x) < 8);
                assert(p.ep.dest_of(tc.ep.dest_of(x)) < 8);
            }
            assert forall|x: int, l: int| 0 <= x < 8 && 0 <= l < 8 && x != l implies sa[x] != sa[l] by {
                assert(a.ep.dest_of(x) != a.ep.dest_of(l));
            }
        }
        assert(is_perm_seq(sb)) by {
            assert forall|x: int| 0 <= x < 8 implies 0 <= #[trigger] sb[x] < 8 by {
                assert(sc.ep.dest_of(x) < 8);
                assert(k.ep.dest_of(sc.ep.dest_of(x)) < 8);
            }
            assert forall|x: int, l: int| 0 <= x < 8 && 0 <= l < 8 && x != l implies sb[x] != sb[l] by {
                assert(b.ep.dest_of(x) != b.ep.dest_of(l));
            }
        }
        lemma_lehmer_index_injective(sa, sb);
        assert forall|j: int| 0 <= j < 8 implies w.ep.dest_of(j) == k.ep.dest_of(j) by {
            let x = si.dest_of(j);
            assert(0 <= x < 8);
            assert(sc.ep.dest_of(x) == j);
            let y0 = p.ep.dest_of(tc.ep.dest_of(x));
            assert(0 <= tc.ep.dest_of(x) < 8);
            assert(0 <= y0 < 8);
            let v = ti.dest_of(y0);
            assert(0 <= v < 8);
            let z = sc.ep.dest_of(v);
            assert(0 <= z < 8);
            assert(si.dest_of(z) == v);
            assert(tc.ep.dest_of(v) == y0);
            assert(uc.ep.dest_of(z) == y0);
            assert(ui.dest_of(y0) == z);
            assert(w.ep.dest_of(j) == z);
            assert(sa[x] == sb[x]);
            assert(a.ep.dest_of(x) == v);
            assert(b.ep.dest_of(x) == si.dest_of(k.ep.dest_of(j)));
            assert(0 <= k.ep.dest_of(j) < 12);
            assert(sc.ep.dest_of(si.dest_of(k.ep.dest_of(j))) == k.ep.dest_of(j));
        }
        assert(w.ep@.subrange(0, 8) =~= k.ep@.subrange(0, 8));
    }

    proof fn lemma_identity_first() {
        Sym::lemma_code_of(0);
    }

    proof fn lemma_conj_identity(c: Cube, s: Sym) {
        s.lemma_conj_identity(c);
    }

    fn name() -> (r: &'static str)
        ensures
            r@ == "CoordEP"@,
    {
        "CoordEP"
    }

    fn n_values() -> (r: usize) {
        40320
    }

    fn index(c: &Cube) -> (r: usize) {
        let indices = [
            Edge::UF.coord(),
            Edge::UL.coord(),
            Edge::UB.coord(),
            Edge::UR.coord(),
            Edge::DF.coord(),
            Edge::DL.coord(),
            Edge::DB.coord(),
            Edge::DR.coord(),
        ];
        proof {
            assert forall|t: int| 0 <= t < 8 implies #[trigger] indices@[t] == t by {}
            assert forall|t: int| 0 <= t < 8 implies member(
                indices@,
                #[trigger] c.ep.dest_of(indices@[t] as int),
            ) by {
                let d = c.ep.dest_of(t);
                assert(d < 8);
                assert(indices@[d] == d);
            }
        }
        let m = c.ep.mask(&indices);
        proof {
            assert forall|t: int| 0 <= t < 8 implies m.dest_of(t) == c.ep.dest_of(t) by {
                let d = c.ep.dest_of(t);
                assert(indices@[d] == c.ep.dest_of(indices@[t] as int));
            }
            assert(m@ =~= c.ep@.subrange(0, 8));
            lemma_factorial_8();
            m.law_index_bound();
        }
        m.index()
    }

    fn rep(c: usize) -> (r: Cube)
        ensures
            forall|e: int| 8 <= e < 12 ==> #[trigger] r.ep.dest_of(e) == e,
    {
        proof {
            lemma_factorial_8();
        }
        let ep = Perm::<8>::from_index(c);
        let mut dests: [usize; 12] = [0; 12];
        let all = Edge::all();
        let mut k: usize = 0;
        while k < 12
            invariant
                k <= 12,
                all@.len() == 12,
                forall|i: int| 0 <= i < 12 ==> (#[trigger] all@[i]).spec_coord() == i,
                ep.valid(),
                forall|i: int| 0 <= i < k ==> #[trigger] dests@[i] == if i < 8 {
                    ep.dest_of(i)
                } else {
                    i
                },
            decreases 12 - k,
        {
            let e = all[k];
            let ec = e.coord();
            if e == Edge::FL || e == Edge::FR || e == Edge::BL || e == Edge::BR {
                dests[ec] = ec;
            } else {
                dests[ec] = ep.dest(ec);
            }
            k = k + 1;
        }
        proof {
            assert forall|i: int, j: int|
                0 <= i < 12 && 0 <= j < 12 && i != j implies #[trigger] dests@[i] != #[trigger] dests@[j] by {
                if i < 8 && j < 8 {
                    assert(ep.dest_of(i) != ep.dest_of(j));
                }
            }
        }
        let d = Cube::default();
        proof {
            Cube::lemma_solved_wf(d);
        }
        let epr = Perm::<12>::from_dests(&dests);
        let r = Cube { eo: d.eo, co: d.co, ep: epr, cp: d.cp };
        proof {
            assert(r.ep@.subrange(0, 8) =~= ep@);
        }
        r
    }

    fn conj(c: &Cube, s: Sym) -> (r: Cube) {
        s.conj_edges(c)
    }

    fn syms() -> (r: Vec<Sym>) {
        all_syms_vec()
    }
}

/// The permutation coordinate of the edges outside the E slice reads a coset: cubes of the
/// second phase with the same coordinate, each followed by the same cube `m`, have the
/// same coordinate again.
pub proof fn law_compose_respects_ep(a: Cube, b: Cube, m: Cube, ra: Cube, rb: Cube)
    requires
        admissible(true, a),
        admissible(true, b),
        CoordEP::spec_index(a) == CoordEP::spec_index(b),
        ra.is_compose_of(a, m),
        rb.is_compose_of(b, m),
    ensures
        CoordEP::spec_index(ra) == CoordEP::spec_index(rb),
{
    let sa = a.ep@.subrange(0, 8);
    let sb = b.ep@.subrange(0, 8);
    assert(is_perm_seq(sa)) by {
        assert forall|k: int| 0 <= k < 8 implies 0 <= #[trigger] sa[k] < 8 by {
            assert(a.ep.dest_of(k) < 8);
        }
        assert forall|k: int, l: int| 0 <= k < 8 && 0 <= l < 8 && k != l implies sa[k] != sa[l] by {
            assert(a.ep.dest_of(k) != a.ep.dest_of(l));
        }
    }
    assert(is_perm_seq(sb)) by {
        assert forall|k: int| 0 <= k < 8 implies 0 <= #[trigger] sb[k] < 8 by {
            assert(b.ep.dest_of(k) < 8);
        }
        assert forall|k: int, l: int| 0 <= k < 8 && 0 <= l < 8 && k != l implies sb[k] != sb[l] by {
            assert(b.ep.dest_of(k) != b.ep.dest_of(l));
        }
    }
    lemma_lehmer_index_injective(sa, sb);
    assert forall|k: int| 0 <= k < 8 implies ra.ep.dest_of(k) == rb.ep.dest_of(k) by {
        assert(sa[k] == sb[k]);
    }
    assert(ra.ep@.subrange(0, 8) =~= rb.ep@.subrange(0, 8));
}

} // verus!
