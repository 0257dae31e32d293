use lib::cube::Cube;
use lib::mov::Move;
use lib::net::cube_from_net;
use lib::piece::{Corner, Edge};

fn lines(net: &str) -> Vec<String> {
    net.lines().filter(|l| !l.trim().is_empty()).map(|l| l.to_string()).collect()
}

const SOLVED: &str = "
      W W W
      W W W
      W W W
O O O G G G R R R B B B
O O O G G G R R R B B B
O O O G G G R R R B B B
      Y Y Y
      Y Y Y
      Y Y Y
";

const AFTER_U: &str = "
      W W W
      W W W
      W W W
G G G R R R B B B O O O
O O O G G G R R R B B B
O O O G G G R R R B B B
      Y Y Y
      Y Y Y
      Y Y Y
";

#[test]
fn test_net_solved() {
    assert_eq!(cube_from_net(&lines(SOLVED)), Some(Cube::default()));
}

#[test]
fn test_net_after_u() {
    assert_eq!(cube_from_net(&lines(AFTER_U)), Some(Cube::from(Move::U)));
}

#[test]
fn test_net_rejects() {
    // A missing line leaves stickers unread.
    let mut l = lines(SOLVED);
    l.pop();
    assert_eq!(cube_from_net(&l), None);
    // Too many stickers on a line.
    let mut l = lines(SOLVED);
    l[0] = "W W W W".to_string();
    assert_eq!(cube_from_net(&l), None);
    // A colour that is no centre.
    let mut l = lines(SOLVED);
    l[0] = "W W X".to_string();
    assert_eq!(cube_from_net(&l), None);
    // Two stickers of the same face on one edge.
    let mut l = lines(SOLVED);
    l[0] = "W Y W".to_string();
    assert_eq!(cube_from_net(&l), None);
}

/// Sticker positions of the net, as in the layout the parser reads.
fn edge_pos(e: usize, k: usize) -> (usize, usize) {
    let t = [
        [(2, 1), (3, 4)],
        [(1, 0), (3, 1)],
        [(0, 1), (3, 10)],
        [(1, 2), (3, 7)],
        [(6, 1), (5, 4)],
        [(7, 0), (5, 1)],
        [(8, 1), (5, 10)],
        [(7, 2), (5, 7)],
        [(4, 5), (4, 6)],
        [(4, 3), (4, 2)],
        [(4, 11), (4, 0)],
        [(4, 9), (4, 8)],
    ];
    t[e][k]
}

fn corner_pos(c: usize, k: usize) -> (usize, usize) {
    let t = [
        [(2, 2), (3, 5), (3, 6)],
        [(2, 0), (3, 2), (3, 3)],
        [(0, 0), (3, 11), (3, 0)],
        [(0, 2), (3, 8), (3, 9)],
        [(6, 2), (5, 6), (5, 5)],
        [(6, 0), (5, 3), (5, 2)],
        [(8, 0), (5, 0), (5, 11)],
        [(8, 2), (5, 9), (5, 8)],
    ];
    t[c][k]
}

/// Colours of the faces U, D, F, B, R, L.
const COLOURS: [char; 6] = ['W', 'Y', 'G', 'B', 'R', 'O'];

/// The faces of each edge and corner, by face number (U, D, F, B, R, L), lowest first.
const EDGE_FACES: [[usize; 2]; 12] = [
    [0, 2],
    [0, 5],
    [0, 3],
    [0, 4],
    [1, 2],
    [1, 5],
    [1, 3],
    [1, 4],
    [2, 4],
    [2, 5],
    [3, 5],
    [3, 4],
];
const CORNER_FACES: [[usize; 3]; 8] = [
    [0, 2, 4],
    [0, 2, 5],
    [0, 3, 5],
    [0, 3, 4],
    [1, 2, 4],
    [1, 2, 5],
    [1, 3, 5],
    [1, 3, 4],
];

/// Paint the net of a cube: each slot shows the stickers of the piece in it, the U/D
/// (or F/B) sticker where the flip or twist puts it.
fn net_of(c: &Cube) -> Vec<String> {
    let lens = [3, 3, 3, 12, 12, 12, 3, 3, 3];
    let mut grid: Vec<Vec<char>> = lens.iter().map(|n| vec!['?'; *n]).collect();
    grid[1][1] = COLOURS[0];
    grid[4][1] = COLOURS[5];
    grid[4][4] = COLOURS[2];
    grid[4][7] = COLOURS[4];
    grid[4][10] = COLOURS[3];
    grid[7][1] = COLOURS[1];
    for d in 0..12 {
        let p = c.ep.source(d);
        let flip = ((c.eo.0 >> d) & 1) as usize;
        for k in 0..2 {
            let (i, j) = edge_pos(d, k);
            grid[i][j] = COLOURS[EDGE_FACES[p][k ^ flip]];
        }
    }
    for d in 0..8 {
        let p = c.cp.source(d);
        let twist = ((c.co.0 >> (2 * d)) & 3) as usize;
        for k in 0..3 {
            let (i, j) = corner_pos(d, k);
            grid[i][j] = COLOURS[CORNER_FACES[p][(k + 3 - twist) % 3]];
        }
    }
    grid.iter()
        .map(|row| row.iter().map(|ch| ch.to_string()).collect::<Vec<_>>().join(" "))
        .collect()
}

#[test]
fn test_net_round_trip() {
    let algs = ["R U R' U'", "F B2 L D'", "B2 R2 D L2 F2 L2 U2 B2 D L2 D' F2 U' B' R U L' B' D R D' L2 B' U'"];
    for alg in algs {
        let c = Cube::from_moves(&Move::parse_alg(alg).unwrap()).unwrap();
        assert_eq!(cube_from_net(&net_of(&c)), Some(c), "{}", alg);
    }
    assert_eq!(Edge::UF.coord(), 0);
    assert_eq!(Corner::UFR.coord(), 0);
}
