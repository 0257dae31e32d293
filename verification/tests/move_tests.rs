use lib::face::Face;
use lib::mov::Move;
use lib::piece::{Corner, Edge};

#[test]
fn test_names_round_trip() {
    for m in Move::all() {
        assert_eq!(Move::from_name(m.name()), Some(m));
    }
    assert_eq!(Move::U3.name(), "U'");
    assert_eq!(Move::R2.name(), "R2");
    assert_eq!(Move::from_name("X"), None);
    assert_eq!(Move::from_name("U3"), None);
    assert_eq!(Move::from_name(""), None);
    assert_eq!(Move::from_name("R2'"), None);
}

#[test]
fn test_parse_alg() {
    assert_eq!(Move::parse_alg("R U R' U'"), Some(vec![Move::R, Move::U, Move::R3, Move::U3]));
    assert_eq!(Move::parse_alg("  B2\tR2  D\n"), Some(vec![Move::B2, Move::R2, Move::D]));
    assert_eq!(Move::parse_alg(""), Some(Vec::<Move>::new()));
    assert_eq!(Move::parse_alg("R U Q"), None);
}

#[test]
fn test_movesets() {
    assert_eq!(Move::all().len(), 18);
    let dr = Move::drud_moveset();
    assert_eq!(dr.len(), 10);
    assert!(dr.contains(&Move::U3));
    assert!(dr.contains(&Move::F2));
    assert!(!dr.contains(&Move::F));
    for (i, m) in Move::all().iter().enumerate() {
        assert_eq!(m.index(), i);
    }
}

#[test]
fn test_cancels_commutes() {
    assert!(Move::U.cancels_with(&Move::U2));
    assert!(!Move::U.cancels_with(&Move::D));
    assert!(Move::U.commutes_with(&Move::D3));
    assert!(!Move::U.commutes_with(&Move::R));
    assert_eq!(Move::R3.face(), Face::R);
}

#[test]
fn test_faces_and_pieces() {
    assert_eq!(Face::U.opposite(), Face::D);
    assert_eq!(Face::F.opposite(), Face::B);
    assert_eq!(Face::L.opposite().opposite(), Face::L);
    for (i, e) in Edge::all().iter().enumerate() {
        assert_eq!(e.coord(), i);
        assert_eq!(Edge::from_coord(i), *e);
    }
    for (i, c) in Corner::all().iter().enumerate() {
        assert_eq!(c.coord(), i);
    }
    assert_eq!(Edge::from_faces(Face::F, Face::U), Ok(Edge::UF));
    assert_eq!(Edge::from_faces(Face::U, Face::D), Err(()));
    assert_eq!(Corner::from_faces(Face::R, Face::U, Face::F), Ok(Corner::UFR));
    assert_eq!(Corner::from_faces(Face::R, Face::L, Face::F), Err(()));
}

#[test]
fn test_parse_alg_unicode_whitespace() {
    let moves = Move::parse_alg("R\u{a0}U\u{2003}F'\u{0b}D2\u{3000}").unwrap();
    assert_eq!(moves, vec![Move::R, Move::U, Move::F3, Move::D2]);
}

#[test]
fn test_pieces_from_names() {
    assert_eq!(Edge::try_from("UF"), Ok(Edge::UF));
    assert_eq!(Edge::try_from("RB"), Ok(Edge::BR));
    assert_eq!(Edge::try_from("UD"), Err(()));
    assert_eq!(Edge::try_from("UFR"), Err(()));
    assert_eq!(Corner::try_from("RUF"), Ok(Corner::UFR));
    assert_eq!(Corner::try_from("DLB"), Ok(Corner::DBL));
    assert_eq!(Corner::try_from("UDF"), Err(()));
    assert_eq!(Corner::try_from("UF"), Err(()));
}
