use lib::cube::{Cube, CO, EO};
use lib::mov::Move;
use lib::perm::Perm;
use lib::piece::{Corner, Edge};
use lib::piece::Corner::{DBL, DBR, UBL, UBR, UFR};
use lib::piece::Edge::{BL, BR, DB, UB, UF, UL};

#[test]
fn test_move() {
    let eo = EO::from_bad_edges(&[UB, BL, BR, DB]); // These edges flip under L
    let co = CO::from_assoc(&[(UBL, 2), (DBL, 1), (DBR, 2), (UBR, 1)]); // Standard corner twist effects for L
    let ep = Perm::<12>::from_cycle(&[UB.coord(), BL.coord(), DB.coord(), BR.coord()]);
    let cp = Perm::<8>::from_cycle(&[UBL.coord(), DBL.coord(), DBR.coord(), UBR.coord()]);

    let t = Cube { eo, co, ep, cp };
    println!(
        "Cube::from_repr({:#x}, {:#x}, {:#x}, {:#x})",
        t.eo.0,
        t.co.0,
        t.ep.repr(),
        t.cp.repr()
    );

    let t2 = t.compose(&t);
    println!(
        "Cube::from_repr({:#x}, {:#x}, {:#x}, {:#x})",
        t2.eo.0,
        t2.co.0,
        t2.ep.repr(),
        t2.cp.repr()
    );

    let t3 = t2.compose(&t);
    println!(
        "Cube::from_repr({:#x}, {:#x}, {:#x}, {:#x})",
        t3.eo.0,
        t3.co.0,
        t3.ep.repr(),
        t3.cp.repr()
    );
}

#[test]
#[allow(non_snake_case)]
fn test_apply_moves() {
    let R: Cube = Move::R.into();
    let U: Cube = Move::U.into();
    let _F: Cube = Move::F.into();
    let _R3: Cube = Move::R3.into();
    let _U3: Cube = Move::U3.into();
    let _F3: Cube = Move::F3.into();

    let ru = R.compose(&R).compose(&U).compose(&U);
    println!("rururu: {:?}", ru.compose(&ru).compose(&ru));

    println!("{:#x}", Cube::default().cp.repr())
}

#[test]
fn test_two_jperms_solved() {
    let jperm = vec![Move::R, Move::U, Move::R3, Move::F3, Move::R, Move::U, Move::R3, Move::U3, Move::R3, Move::F, Move::R2, Move::U3, Move::R3, Move::U3]
        .into_iter()
        .map(Cube::from)
        .reduce(|acc, m| acc.compose(&m))
        .unwrap();
    assert_eq!(jperm.compose(&jperm), Cube::default());
}

/// The cube of every move, as the packed representation of its four parts.
fn move_table() -> Vec<(Move, Cube)> {
    vec![
        (Move::U, Cube::from_repr(0x0000, 0x0000, 0xba9876540321, 0x76540321)),
        (Move::D, Cube::from_repr(0x0000, 0x0000, 0xba9865473210, 0x65473210)),
        (Move::F, Cube::from_repr(0x0311, 0x0906, 0xba0476593218, 0x76153204)),
        (Move::B, Cube::from_repr(0x0c44, 0x9060, 0x26987b543a10, 0x37542610)),
        (Move::R, Cube::from_repr(0x0000, 0x4281, 0x7a938654b210, 0x46507213)),
        (Move::L, Cube::from_repr(0x0000, 0x2418, 0xb15876a43290, 0x72643150)),
        (Move::U2, Cube::from_repr(0x0000, 0x0000, 0xba9876541032, 0x76541032)),
        (Move::U3, Cube::from_repr(0x0000, 0x0000, 0xba9876542103, 0x76542103)),
        (Move::D2, Cube::from_repr(0x0000, 0x0000, 0xba9854763210, 0x54763210)),
        (Move::D3, Cube::from_repr(0x0000, 0x0000, 0xba9847653210, 0x47653210)),
        (Move::F2, Cube::from_repr(0x0000, 0x0000, 0xba8976503214, 0x76013245)),
        (Move::F3, Cube::from_repr(0x0311, 0x0906, 0xba4076583219, 0x76403251)),
        (Move::B2, Cube::from_repr(0x0000, 0x0000, 0xab9872543610, 0x23546710)),
        (Move::B3, Cube::from_repr(0x0c44, 0x9060, 0x62987a543b10, 0x62547310)),
        (Move::R2, Cube::from_repr(0x0000, 0x0000, 0x8a9b36547210, 0x06534217)),
        (Move::R3, Cube::from_repr(0x0000, 0x4281, 0x3a97b6548210, 0x36570214)),
        (Move::L2, Cube::from_repr(0x0000, 0x0000, 0xb9a876143250, 0x71243560)),
        (Move::L3, Cube::from_repr(0x0000, 0x2418, 0xb518769432a0, 0x75143620)),
    ]
}

#[test]
fn test_move_cubes_match_table() {
    for (m, c) in move_table() {
        assert_eq!(Cube::from(m), c, "move {}", m.name());
    }
}

#[test]
fn test_four_quarter_turns_solve() {
    for m in Move::all() {
        let c = Cube::from(m);
        let c4 = c.compose(&c).compose(&c).compose(&c);
        assert!(c4.is_solved(), "move {}", m.name());
    }
}

#[test]
fn test_compose_inverse_is_solved() {
    let c = Cube::from_moves(&[Move::R, Move::U, Move::F3, Move::L2, Move::D, Move::B3]).unwrap();
    assert!(c.compose(&c.inverse()).is_solved());
    assert!(c.inverse().compose(&c).is_solved());
    assert!(!c.is_solved());
}

#[test]
fn test_compose_identity_and_assoc() {
    let a = Cube::from_moves(&[Move::R, Move::U2, Move::F]).unwrap();
    let b = Cube::from_moves(&[Move::L3, Move::D]).unwrap();
    let c = Cube::from_moves(&[Move::B2, Move::R3]).unwrap();
    let e = Cube::default();
    assert_eq!(a.compose(&e), a);
    assert_eq!(e.compose(&a), a);
    assert_eq!(a.compose(&b).compose(&c), a.compose(&b.compose(&c)));
}

#[test]
fn test_apply_move_is_compose() {
    let a = Cube::from_moves(&[Move::F, Move::R, Move::U3]).unwrap();
    for m in Move::all() {
        assert_eq!(a.apply_move(m), a.compose(&Cube::from(m)));
    }
    let e = a.apply_move_edges(Move::R);
    let k = a.apply_move_corners(Move::R);
    let full = a.apply_move(Move::R);
    assert_eq!((e.eo, e.ep), (full.eo, full.ep));
    assert_eq!((k.co, k.cp), (full.co, full.cp));
    assert_eq!((e.co, e.cp), (a.co, a.cp));
    assert_eq!((k.eo, k.ep), (a.eo, a.ep));
}

#[test]
fn test_from_moves() {
    assert!(Cube::from_moves(&[]).is_none());
    assert_eq!(Cube::from_moves(&[Move::R]).unwrap(), Cube::from(Move::R));
    assert_eq!(
        Cube::from_moves(&[Move::R, Move::U]).unwrap(),
        Cube::default().apply_move(Move::R).apply_move(Move::U)
    );
}

#[test]
fn test_is_drud() {
    assert!(Cube::default().is_drud());
    assert!(Cube::from_moves(&[Move::U, Move::R2, Move::D3, Move::F2, Move::B2, Move::L2]).unwrap().is_drud());
    assert!(!Cube::from(Move::R).is_drud());
    assert!(!Cube::from(Move::F).is_drud());
    assert!(Cube::from(Move::F2).is_eofb());
    assert!(!Cube::from(Move::F).is_eofb());
    assert!(Cube::from(Move::R2).is_coud());
    assert!(!Cube::from(Move::R).is_coud());
}

#[test]
fn test_edge_at_find_edge() {
    let c = Cube::from(Move::U);
    // U sends the edge in UF to UL.
    assert_eq!(c.find_edge(Edge::UF), Edge::UL);
    assert_eq!(c.edge_at(Edge::UL), Edge::UF);
    for e in Edge::all() {
        assert_eq!(c.edge_at(c.find_edge(e)), e);
    }
}

#[test]
fn test_eo_co_parts() {
    let eo = EO::from_bad_edges(&[UF, DB]);
    assert!(eo.is_bad(UF));
    assert!(eo.is_bad(DB));
    assert!(!eo.is_bad(UL));
    assert_eq!(eo.compose(eo).0, 0);
    let co = CO::from_assoc(&[(UFR, 1), (DBL, 2)]);
    assert_eq!(co.compose(co).compose(co).0, 0);
    assert_eq!(EO::from_repr(0x3).0, 0x3);
    assert_eq!(CO::from_repr(0x6).0, 0x6);
    assert_eq!(EO::new().0, 0);
    assert_eq!(CO::new().0, 0);
}

#[test]
fn test_eo_co_coords() {
    for c in [0usize, 1, 5, 1000, 2047] {
        assert_eq!(EO::from_coord(c).coord(), c);
    }
    for c in [0usize, 1, 2, 728, 2186] {
        assert_eq!(CO::from_coord(c).coord(), c);
    }
    // The twelfth flip makes the number of flips even.
    assert_eq!(EO::from_coord(1).0, 0x801);
    // The eighth twist makes the total a multiple of three.
    assert_eq!(CO::from_coord(1).0, 0x8001);
}

#[test]
fn test_orientations_balanced() {
    let algs: [&[Move]; 4] = [
        &[Move::F],
        &[Move::R, Move::U, Move::F3, Move::L, Move::D2, Move::B],
        &[Move::B3, Move::F, Move::L2, Move::R3, Move::U2, Move::D3, Move::F2],
        &[Move::F, Move::B, Move::F, Move::B3, Move::L, Move::R],
    ];
    for alg in algs {
        let c = Cube::from_moves(alg).unwrap();
        let twists: u32 = (0..8).map(|k| ((c.co.0 >> (2 * k)) & 3) as u32).sum();
        assert_eq!(twists % 3, 0);
        assert_eq!((c.eo.0 & 0xfff).count_ones() % 2, 0);
        let d = c.apply_move(Move::F3);
        let twists: u32 = (0..8).map(|k| ((d.co.0 >> (2 * k)) & 3) as u32).sum();
        assert_eq!(twists % 3, 0);
        assert_eq!((d.eo.0 & 0xfff).count_ones() % 2, 0);
    }
}

#[test]
fn test_swizzle_compose() {
    let p = Perm::<8>::from_dests(&[3, 0, 7, 1, 2, 6, 4, 5]);
    let q = Perm::<8>::from_dests(&[1, 5, 0, 2, 7, 3, 6, 4]);
    let co = CO(0xf1b3);
    assert_eq!(co.swizzle(p).swizzle(q), co.swizzle(p.compose(q)));
    for i in 0..8 {
        assert_eq!((co.swizzle(p).0 >> (2 * p.dest(i))) & 3, (co.0 >> (2 * i)) & 3);
    }
    let p = Perm::<12>::from_dests(&[3, 0, 7, 1, 2, 6, 4, 5, 11, 9, 8, 10]);
    let q = Perm::<12>::from_dests(&[1, 5, 0, 2, 7, 3, 6, 4, 10, 8, 11, 9]);
    let eo = EO(0xf5a3);
    assert_eq!(eo.swizzle(p).swizzle(q), eo.swizzle(p.compose(q)));
    assert!(eo.swizzle(p).0 < 1 << 12);
}
