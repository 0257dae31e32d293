use lib::coord::co::CoordCO;
use lib::coord::cp::CoordCP;
use lib::coord::eo::CoordEO;
use lib::coord::ep::CoordEP;
use lib::coord::eslice::CoordESlice;
use lib::coord::eslice_ep::CoordESliceEP;
use lib::coord::{Coord, SymTable};
use lib::cube::Cube;
use lib::mov::Move;
use lib::pruning::PrunTable;
use lib::sym::Sym;

#[test]
fn test_solved_coords_zero() {
    let c = Cube::default();
    assert_eq!(CoordCO::index(&c), 0);
    assert_eq!(CoordEO::index(&c), 0);
    assert_eq!(CoordCP::index(&c), 0);
    assert_eq!(CoordEP::index(&c), 0);
    assert_eq!(CoordESlice::index(&c), 0);
    assert_eq!(CoordESliceEP::index(&c), 0);
}

#[test]
fn test_rep_round_trip() {
    for x in [0usize, 1, 100, 2186] {
        assert_eq!(CoordCO::index(&CoordCO::rep(x)), x);
    }
    for x in [0usize, 1, 100, 2047] {
        assert_eq!(CoordEO::index(&CoordEO::rep(x)), x);
    }
    for x in [0usize, 1, 5040, 40319] {
        assert_eq!(CoordCP::index(&CoordCP::rep(x)), x);
        assert_eq!(CoordEP::index(&CoordEP::rep(x)), x);
    }
}

#[test]
fn test_coord_ranges() {
    let c = Cube::from_moves(&[Move::R, Move::U, Move::F, Move::L3, Move::B2, Move::D]).unwrap();
    assert!(CoordCO::index(&c) < CoordCO::n_values());
    assert!(CoordEO::index(&c) < CoordEO::n_values());
    assert!(CoordCP::index(&c) < CoordCP::n_values());
    assert!(CoordESlice::index(&c) < CoordESlice::n_values());
    assert_eq!(CoordESlice::n_values(), 495);
    assert_eq!(CoordESliceEP::n_values(), 24);
    let d = Cube::from_moves(&[Move::R2, Move::U, Move::F2, Move::D3]).unwrap();
    assert!(CoordEP::index(&d) < 40320);
    assert!(CoordESliceEP::index(&d) < 24);
    assert_eq!(CoordCO::name(), "CoordCO");
    assert_eq!(CoordESliceEP::name(), "CoordESliceEP");
}

#[test]
fn test_sym_counts() {
    assert_eq!(CoordCO::syms().len(), 8);
    assert_eq!(CoordEO::syms().len(), 8);
    assert_eq!(CoordCP::syms().len(), 16);
    assert_eq!(CoordEP::syms().len(), 16);
    assert_eq!(CoordESlice::syms().len(), 0);
}

#[test]
fn test_conj_classes_co() {
    let t = SymTable::<CoordCO>::new();
    assert_eq!(t.n_conj_classes(), 291);
    let c = Cube::from_moves(&[Move::R, Move::F]).unwrap();
    let canon = t.canonicalize(&c);
    let x = CoordCO::index(&c);
    assert_eq!(t.conj_class(CoordCO::index(&canon)), t.conj_class(x));
    assert_eq!(CoordCO::index(&t.canonicalize(&Cube::default())), 0);
    assert!(t.canonical_conj(0).coord() < 16);
    assert_eq!(t.conj_class(0), 0);
    let ss = t.self_syms(&Cube::default());
    assert_eq!(ss.len(), 8);
    assert_eq!(ss[0].coord(), 0);
}

#[test]
fn test_conj_classes_eo() {
    let t = SymTable::<CoordEO>::new();
    assert_eq!(t.n_conj_classes(), 336);
}

#[test]
fn test_conj_classes_cp_ep() {
    assert_eq!(SymTable::<CoordCP>::new().n_conj_classes(), 2768);
    assert_eq!(SymTable::<CoordEP>::new().n_conj_classes(), 2768);
}

#[test]
fn test_pruning_phase2() {
    let drud = Move::drud_moveset();
    let pt = PrunTable::<CoordCP, CoordESliceEP>::new(&drud).unwrap();
    assert_eq!(pt.eval(&Cube::default()), 0);
    let c = Cube::from_moves(&[Move::U]).unwrap();
    assert_eq!(pt.eval(&c), 1);
    let c = Cube::from_moves(&[Move::R2, Move::U]).unwrap();
    assert!(pt.eval(&c) <= 2);
    assert!(pt.eval(&c) >= 1);
}

#[test]
fn test_canonicalize_same_class() {
    let c = Cube::from_moves(&[Move::R, Move::U, Move::F2, Move::L3, Move::B]).unwrap();
    let d = Cube::from_moves(&[Move::R2, Move::U, Move::F2, Move::D3, Move::L2]).unwrap();

    let t = SymTable::<CoordCO>::new();
    let x = CoordCO::index(&t.canonicalize(&c));
    for s in CoordCO::syms() {
        assert_eq!(CoordCO::index(&t.canonicalize(&s.conj(&c))), x);
    }
    let t = SymTable::<CoordEO>::new();
    let x = CoordEO::index(&t.canonicalize(&c));
    for s in CoordEO::syms() {
        assert_eq!(CoordEO::index(&t.canonicalize(&s.conj(&c))), x);
    }
    let t = SymTable::<CoordCP>::new();
    let x = CoordCP::index(&t.canonicalize(&c));
    for s in CoordCP::syms() {
        assert_eq!(CoordCP::index(&t.canonicalize(&s.conj(&c))), x);
    }
    let t = SymTable::<CoordEP>::new();
    let x = CoordEP::index(&t.canonicalize(&d));
    for s in CoordEP::syms() {
        assert_eq!(CoordEP::index(&t.canonicalize(&s.conj(&d))), x);
    }
}

#[test]
fn test_syms_respect_index() {
    let a = Cube::from_moves(&[Move::R, Move::U, Move::F3]).unwrap();
    // Same corners as `a`, solved edges.
    let b = Cube::from_repr(0, a.co.0, 0xba9876543210, a.cp.repr());
    assert_eq!(CoordCP::index(&a), CoordCP::index(&b));
    assert_eq!(CoordCO::index(&a), CoordCO::index(&b));
    for s in CoordCP::syms() {
        assert_eq!(CoordCP::index(&CoordCP::conj(&a, s)), CoordCP::index(&CoordCP::conj(&b, s)));
    }
    for s in CoordCO::syms() {
        assert_eq!(CoordCO::index(&CoordCO::conj(&a, s)), CoordCO::index(&CoordCO::conj(&b, s)));
    }
    // Same edges as `a`, solved corners.
    let e = Cube::from_repr(a.eo.0, 0, a.ep.repr(), 0x76543210);
    assert_eq!(CoordEO::index(&a), CoordEO::index(&e));
    for s in CoordEO::syms() {
        assert_eq!(CoordEO::index(&CoordEO::conj(&a, s)), CoordEO::index(&CoordEO::conj(&e, s)));
    }
}

#[test]
fn test_compose_respects_index() {
    let a = Cube::from_moves(&[Move::R, Move::U, Move::F3, Move::L]).unwrap();
    // Same corners as `a`, solved edges; same edges as `a`, solved corners.
    let b = Cube::from_repr(0, a.co.0, 0xba9876543210, a.cp.repr());
    let e = Cube::from_repr(a.eo.0, 0, a.ep.repr(), 0x76543210);
    for m in [Move::U, Move::R, Move::F2, Move::B3, Move::D, Move::L2] {
        let mc = Cube::from(m);
        assert_eq!(CoordCP::index(&a.compose(&mc)), CoordCP::index(&b.compose(&mc)));
        assert_eq!(CoordCO::index(&a.compose(&mc)), CoordCO::index(&b.compose(&mc)));
        assert_eq!(CoordEO::index(&a.compose(&mc)), CoordEO::index(&e.compose(&mc)));
    }
    let d = Cube::from_moves(&[Move::R2, Move::U, Move::F2, Move::D3]).unwrap();
    let f = Cube::from_repr(0, 0, d.ep.repr(), 0x76543210);
    for m in [Move::U, Move::R2, Move::F2, Move::D3] {
        let mc = Cube::from(m);
        assert_eq!(CoordEP::index(&d.compose(&mc)), CoordEP::index(&f.compose(&mc)));
    }
}

#[test]
fn test_eslice_coords_respect_moves_and_syms() {
    let a = Cube::from_moves(&[Move::R, Move::U, Move::F3, Move::L, Move::D2]).unwrap();
    // A U turn first leaves the E-slice edges where `a` puts them.
    let b = Cube::from(Move::U).compose(&a);
    assert_eq!(CoordESlice::index(&a), CoordESlice::index(&b));
    let d = Cube::from_moves(&[Move::R2, Move::U, Move::F2, Move::D3, Move::B2]).unwrap();
    let e = Cube::from(Move::U3).compose(&d);
    assert_eq!(CoordESliceEP::index(&d), CoordESliceEP::index(&e));
    for m in [Move::U, Move::R, Move::F2, Move::B3, Move::D, Move::L2] {
        let mc = Cube::from(m);
        assert_eq!(CoordESlice::index(&a.compose(&mc)), CoordESlice::index(&b.compose(&mc)));
    }
    for m in [Move::U, Move::R2, Move::F2, Move::D3, Move::L2, Move::B2] {
        let mc = Cube::from(m);
        assert_eq!(CoordESliceEP::index(&d.compose(&mc)), CoordESliceEP::index(&e.compose(&mc)));
    }
    for i in 0..16 {
        let s = Sym::from_coord(i);
        assert_eq!(CoordESlice::index(&CoordESlice::conj(&a, s)), CoordESlice::index(&CoordESlice::conj(&b, s)));
        assert_eq!(
            CoordESliceEP::index(&CoordESliceEP::conj(&d, s)),
            CoordESliceEP::index(&CoordESliceEP::conj(&e, s))
        );
    }
}

#[test]
fn test_rep_round_trip_eslice() {
    for x in 0..495usize {
        assert_eq!(CoordESlice::index(&CoordESlice::rep(x)), x);
    }
    for x in 0..24usize {
        let c = CoordESliceEP::rep(x);
        assert_eq!(CoordESliceEP::index(&c), x);
        assert_eq!(CoordESlice::index(&c), 0);
    }
    for x in [0usize, 7, 5040, 40319] {
        let c = CoordEP::rep(x);
        for e in 8..12 {
            assert_eq!(c.ep.dest(e), e);
        }
    }
}

#[test]
fn test_class_cube_has_least_coordinate() {
    let t = SymTable::<CoordCO>::new();
    for x in 0..2187 {
        let canon = t.canonicalize(&CoordCO::rep(x));
        let r = CoordCO::index(&canon);
        assert!(r <= x);
        assert_eq!(t.conj_class(r), t.conj_class(x));
        assert!(t.conj_class(x) <= x);
    }
    let t = SymTable::<CoordEO>::new();
    for x in 0..2048 {
        let r = CoordEO::index(&t.canonicalize(&CoordEO::rep(x)));
        assert!(r <= x);
        assert_eq!(t.conj_class(r), t.conj_class(x));
    }
}
