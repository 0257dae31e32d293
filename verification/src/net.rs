//! Reading a cube state from its net: nine lines of sticker colours, one token per sticker,
//! laid out as the unfolded cube (U on top; L, F, R, B in the middle band; D below).
use vstd::prelude::*;

use crate::bitset::bit;
use crate::cube::{distinct_corners, lane, Cube, CO, EO};
use crate::face::Face;
use crate::perm::{lemma_injective_surjective, Perm};
use crate::piece::{face_rank, is_sorting_of, rank, Corner, Edge};
use crate::text::{split_words, words};

verus! {

/// Number of stickers on each line of the net.
pub open spec fn row_len(i: int) -> int {
    if 3 <= i < 6 {
        12
    } else {
        3
    }
}

/// Where sticker `k` of the edge slot `e` sits in the net: (line, token).
pub open spec fn edge_pos(e: Edge, k: int) -> (int, int) {
    match e {
        Edge::UF => if k == 0 { (2, 1) } else { (3, 4) },
        Edge::UL => if k == 0 { (1, 0) } else { (3, 1) },
        Edge::UB => if k == 0 { (0, 1) } else { (3, 10) },
        Edge::UR => if k == 0 { (1, 2) } else { (3, 7) },
        Edge::DF => if k == 0 { (6, 1) } else { (5, 4) },
        Edge::DL => if k == 0 { (7, 0) } else { (5, 1) },
        Edge::DB => if k == 0 { (8, 1) } else { (5, 10) },
        Edge::DR => if k == 0 { (7, 2) } else { (5, 7) },
        Edge::FR => if k == 0 { (4, 5) } else { (4, 6) },
        Edge::FL => if k == 0 { (4, 3) } else { (4, 2) },
        Edge::BL => if k == 0 { (4, 11) } else { (4, 0) },
        Edge::BR => if k == 0 { (4, 9) } else { (4, 8) },
    }
}

/// Where sticker `k` of the corner slot `c` sits in the net: (line, token).
pub open spec fn corner_pos(c: Corner, k: int) -> (int, int) {
    match c {
        Corner::UFR => if k == 0 { (2, 2) } else if k == 1 { (3, 5) } else { (3, 6) },
        Corner::UFL => if k == 0 { (2, 0) } else if k == 1 { (3, 2) } else { (3, 3) },
        Corner::UBL => if k == 0 { (0, 0) } else if k == 1 { (3, 11) } else { (3, 0) },
        Corner::UBR => if k == 0 { (0, 2) } else if k == 1 { (3, 8) } else { (3, 9) },
        Corner::DFR => if k == 0 { (6, 2) } else if k == 1 { (5, 6) } else { (5, 5) },
        Corner::DFL => if k == 0 { (6, 0) } else if k == 1 { (5, 3) } else { (5, 2) },
        Corner::DBL => if k == 0 { (8, 0) } else if k == 1 { (5, 0) } else { (5, 11) },
        Corner::DBR => if k == 0 { (8, 2) } else if k == 1 { (5, 9) } else { (5, 8) },
    }
}

/// Where the centre sticker of face `f` sits in the net.
pub open spec fn center_pos(f: Face) -> (int, int) {
    match f {
        Face::U => (1, 1),
        Face::L => (4, 1),
        Face::F => (4, 4),
        Face::R => (4, 7),
        Face::B => (4, 10),
        Face::D => (7, 1),
    }
}

/// The words of the first nine lines.
pub open spec fn net_rows(lines: Seq<String>) -> Seq<Seq<Seq<char>>> {
    Seq::new(if lines.len() < 9 { lines.len() } else { 9 }, |i: int| words(lines[i]@))
}

/// The colour (first character of the token) at a position, if the net has a token there.
#[verifier::opaque]
pub open spec fn token(rows: Seq<Seq<Seq<char>>>, pos: (int, int)) -> Option<char> {
    if 0 <= pos.0 < rows.len() && 0 <= pos.1 < rows[pos.0].len() {
        Some(rows[pos.0][pos.1][0])
    } else {
        None
    }
}

/// No line has more tokens than the net has stickers there.
pub open spec fn fits(rows: Seq<Seq<Seq<char>>>) -> bool {
    forall|i: int| 0 <= i < rows.len() ==> #[trigger] rows[i].len() <= row_len(i)
}

/// The face whose centre shows colour `ch`; when several do, the last in reading order.
#[verifier::opaque]
pub open spec fn face_of(rows: Seq<Seq<Seq<char>>>, ch: char) -> Option<Face> {
    if token(rows, center_pos(Face::D)) == Some(ch) {
        Some(Face::D)
    } else if token(rows, center_pos(Face::B)) == Some(ch) {
        Some(Face::B)
    } else if token(rows, center_pos(Face::R)) == Some(ch) {
        Some(Face::R)
    } else if token(rows, center_pos(Face::F)) == Some(ch) {
        Some(Face::F)
    } else if token(rows, center_pos(Face::L)) == Some(ch) {
        Some(Face::L)
    } else if token(rows, center_pos(Face::U)) == Some(ch) {
        Some(Face::U)
    } else {
        None
    }
}

/// The faces shown by the stickers of edge slot `d`.
#[verifier::opaque]
pub open spec fn edge_faces(rows: Seq<Seq<Seq<char>>>, d: Edge) -> Option<(Face, Face)> {
    match (token(rows, edge_pos(d, 0)), token(rows, edge_pos(d, 1))) {
        (Some(c0), Some(c1)) => match (face_of(rows, c0), face_of(rows, c1)) {
            (Some(f0), Some(f1)) => Some((f0, f1)),
            _ => None,
        },
        _ => None,
    }
}

/// The faces shown by the stickers of corner slot `d`.
#[verifier::opaque]
pub open spec fn corner_faces(rows: Seq<Seq<Seq<char>>>, d: Corner) -> Option<(Face, Face, Face)> {
    match (token(rows, corner_pos(d, 0)), token(rows, corner_pos(d, 1)), token(rows, corner_pos(d, 2))) {
        (Some(c0), Some(c1), Some(c2)) => match (face_of(rows, c0), face_of(rows, c1), face_of(rows, c2)) {
            (Some(f0), Some(f1), Some(f2)) => Some((f0, f1, f2)),
            _ => None,
        },
        _ => None,
    }
}

/// The edge piece in slot `d`, if its stickers show the two faces of an edge.
#[verifier::opaque]
pub open spec fn edge_piece(rows: Seq<Seq<Seq<char>>>, d: Edge) -> Option<Edge> {
    match edge_faces(rows, d) {
        Some((f0, f1)) => if exists|e: Edge| e.faces() == (f0, f1) || e.faces() == (f1, f0) {
            Some(choose|e: Edge| e.faces() == (f0, f1) || e.faces() == (f1, f0))
        } else {
            None
        },
        None => None,
    }
}

/// The corner piece in slot `d`, if its stickers show the three faces of a corner.
#[verifier::opaque]
pub open spec fn corner_piece(rows: Seq<Seq<Seq<char>>>, d: Corner) -> Option<Corner> {
    match corner_faces(rows, d) {
        Some((f0, f1, f2)) => if exists|k: Corner| is_sorting_of(k.faces(), f0, f1, f2) {
            Some(choose|k: Corner| is_sorting_of(k.faces(), f0, f1, f2))
        } else {
            None
        },
        None => None,
    }
}

/// The edge in slot `d` is flipped: its U/D (or, in the E slice, F/B) sticker is not
/// sticker 0 of the slot.
#[verifier::opaque]
pub open spec fn edge_flipped(rows: Seq<Seq<Seq<char>>>, d: Edge) -> bool {
    let (f0, f1) = edge_faces(rows, d).unwrap();
    face_rank(f1) < face_rank(f0)
}

/// The twist of the corner in slot `d`: which of its stickers shows the U or D face.
#[verifier::opaque]
pub open spec fn corner_twist(rows: Seq<Seq<Seq<char>>>, d: Corner) -> int {
    let (f0, f1, f2) = corner_faces(rows, d).unwrap();
    if face_rank(f0) <= face_rank(f1) && face_rank(f0) <= face_rank(f2) {
        0
    } else if face_rank(f1) <= face_rank(f2) {
        1
    } else {
        2
    }
}

/// The net shows a cube state: every slot shows a piece, and no piece shows twice.
pub open spec fn net_ok(rows: Seq<Seq<Seq<char>>>) -> bool {
    &&& fits(rows)
    &&& forall|d: Edge| #[trigger] edge_piece(rows, d) is Some
    &&& forall|d1: Edge, d2: Edge|
        d1 != d2 ==> #[trigger] edge_piece(rows, d1) != #[trigger] edge_piece(rows, d2)
    &&& forall|d: Corner| #[trigger] corner_piece(rows, d) is Some
    &&& forall|d1: Corner, d2: Corner|
        d1 != d2 ==> #[trigger] corner_piece(rows, d1) != #[trigger] corner_piece(rows, d2)
}

/// `c` is the cube state shown by the net: each slot holds the piece its stickers show,
/// flipped or twisted as they show.
pub open spec fn shows(rows: Seq<Seq<Seq<char>>>, c: Cube) -> bool {
    &&& forall|d: Edge|
        #![trigger edge_piece(rows, d)]
        c.ep.dest_of(edge_piece(rows, d).unwrap().spec_coord()) == d.spec_coord() && bit(
            c.eo.0,
            d.spec_coord(),
        ) == edge_flipped(rows, d)
    &&& forall|d: Corner|
        #![trigger corner_piece(rows, d)]
        c.cp.dest_of(corner_piece(rows, d).unwrap().spec_coord()) == d.spec_coord() && lane(
            c.co.0,
            d.spec_coord(),
        ) == corner_twist(rows, d)
}

/// Two edges with the same two faces, in either order, are the same edge.
proof fn lemma_edge_faces_unique(e1: Edge, e2: Edge, a: Face, b: Face)
    requires
        e1.faces() == (a, b) || e1.faces() == (b, a),
        e2.faces() == (a, b) || e2.faces() == (b, a),
    ensures
        e1 == e2,
{
}

/// Two corners with the same three faces, in any order, are the same corner.
proof fn lemma_corner_faces_unique(k1: Corner, k2: Corner, a: Face, b: Face, c: Face)
    requires
        is_sorting_of(k1.faces(), a, b, c),
        is_sorting_of(k2.faces(), a, b, c),
    ensures
        k1 == k2,
{
}

/// Every word of `s` has a character.
pub proof fn lemma_words_nonempty(s: Seq<char>)
    ensures
        forall|j: int| 0 <= j < words(s).len() ==> #[trigger] words(s)[j].len() > 0,
{
    lemma_scan_nonempty(s);
}

proof fn lemma_scan_nonempty(s: Seq<char>)
    ensures
        forall|j: int| 0 <= j < crate::text::scan(s).0.len() ==> #[trigger] crate::text::scan(s).0[j].len() > 0,
    decreases s.len(),
{
    if s.len() > 0 {
        lemma_scan_nonempty(s.drop_last());
        let (ws, cur) = crate::text::scan(s.drop_last());
        assert forall|j: int| 0 <= j < crate::text::scan(s).0.len() implies #[trigger] crate::text::scan(s).0[j].len() > 0 by {
            if j < ws.len() {
                assert(crate::text::scan(s).0[j] == ws[j]);
            }
        }
    }
}

fn row_len_exec(i: usize) -> (r: usize)
    ensures
        r == row_len(i as int),
{
    if 3 <= i && i < 6 {
        12
    } else {
        3
    }
}

fn edge_pos_exec(e: Edge, k: usize) -> (r: (usize, usize))
    ensures
        (r.0 as int, r.1 as int) == edge_pos(e, k as int),
{
    match e {
        Edge::UF => if k == 0 { (2, 1) } else { (3, 4) },
        Edge::UL => if k == 0 { (1, 0) } else { (3, 1) },
        Edge::UB => if k == 0 { (0, 1) } else { (3, 10) },
        Edge::UR => if k == 0 { (1, 2) } else { (3, 7) },
        Edge::DF => if k == 0 { (6, 1) } else { (5, 4) },
        Edge::DL => if k == 0 { (7, 0) } else { (5, 1) },
        Edge::DB => if k == 0 { (8, 1) } else { (5, 10) },
        Edge::DR => if k == 0 { (7, 2) } else { (5, 7) },
        Edge::FR => if k == 0 { (4, 5) } else { (4, 6) },
        Edge::FL => if k == 0 { (4, 3) } else { (4, 2) },
        Edge::BL => if k == 0 { (4, 11) } else { (4, 0) },
        Edge::BR => if k == 0 { (4, 9) } else { (4, 8) },
    }
}

fn corner_pos_exec(c: Corner, k: usize) -> (r: (usize, usize))
    ensures
        (r.0 as int, r.1 as int) == corner_pos(c, k as int),
{
    match c {
        Corner::UFR => if k == 0 { (2, 2) } else if k == 1 { (3, 5) } else { (3, 6) },
        Corner::UFL => if k == 0 { (2, 0) } else if k == 1 { (3, 2) } else { (3, 3) },
        Corner::UBL => if k == 0 { (0, 0) } else if k == 1 { (3, 11) } else { (3, 0) },
        Corner::UBR => if k == 0 { (0, 2) } else if k == 1 { (3, 8) } else { (3, 9) },
        Corner::DFR => if k == 0 { (6, 2) } else if k == 1 { (5, 6) } else { (5, 5) },
        Corner::DFL => if k == 0 { (6, 0) } else if k == 1 { (5, 3) } else { (5, 2) },
        Corner::DBL => if k == 0 { (8, 0) } else if k == 1 { (5, 0) } else { (5, 11) },
        Corner::DBR => if k == 0 { (8, 2) } else if k == 1 { (5, 9) } else { (5, 8) },
    }
}

fn center_pos_exec(f: Face) -> (r: (usize, usize))
    ensures
        (r.0 as int, r.1 as int) == center_pos(f),
{
    match f {
        Face::U => (1, 1),
        Face::L => (4, 1),
        Face::F => (4, 4),
        Face::R => (4, 7),
        Face::B => (4, 10),
        Face::D => (7, 1),
    }
}

/// The words of each line, as read: `rows` holds `net`.
pub open spec fn rows_hold(rows: Seq<Vec<Vec<char>>>, net: Seq<Seq<Seq<char>>>) -> bool {
    &&& rows.len() == net.len()
    &&& forall|i: int| 0 <= i < rows.len() ==> (#[trigger] rows[i])@.len() == net[i].len()
    &&& forall|i: int, j: int|
        0 <= i < rows.len() && 0 <= j < rows[i]@.len() ==> (#[trigger] rows[i]@[j])@ == net[i][j]
    &&& forall|i: int, j: int|
        0 <= i < net.len() && 0 <= j < net[i].len() ==> #[trigger] net[i][j].len() > 0
}

fn token_exec(rows: &Vec<Vec<Vec<char>>>, pos: (usize, usize), Ghost(net): Ghost<Seq<Seq<Seq<char>>>>) -> (r: Option<char>)
    requires
        rows_hold(rows@, net),
    ensures
        r == token(net, (pos.0 as int, pos.1 as int)),
{
    reveal(token);
    if pos.0 < rows.len() && pos.1 < rows[pos.0].len() {
        proof {
            assert(net[pos.0 as int][pos.1 as int].len() > 0);
            assert(rows@[pos.0 as int]@[pos.1 as int]@ == net[pos.0 as int][pos.1 as int]);
        }
        Some(rows[pos.0][pos.1][0])
    } else {
        None
    }
}

fn face_of_exec(rows: &Vec<Vec<Vec<char>>>, ch: char, Ghost(net): Ghost<Seq<Seq<Seq<char>>>>) -> (r: Option<Face>)
    requires
        rows_hold(rows@, net),
    ensures
        r == face_of(net, ch),
{
    reveal(face_of);
    if token_exec(rows, center_pos_exec(Face::D), Ghost(net)) == Some(ch) {
        Some(Face::D)
    } else if token_exec(rows, center_pos_exec(Face::B), Ghost(net)) == Some(ch) {
        Some(Face::B)
    } else if token_exec(rows, center_pos_exec(Face::R), Ghost(net)) == Some(ch) {
        Some(Face::R)
    } else if token_exec(rows, center_pos_exec(Face::F), Ghost(net)) == Some(ch) {
        Some(Face::F)
    } else if token_exec(rows, center_pos_exec(Face::L), Ghost(net)) == Some(ch) {
        Some(Face::L)
    } else if token_exec(rows, center_pos_exec(Face::U), Ghost(net)) == Some(ch) {
        Some(Face::U)
    } else {
        None
    }
}

/// The faces shown by the stickers at the given positions.
fn faces_at(rows: &Vec<Vec<Vec<char>>>, pos: (usize, usize), Ghost(net): Ghost<Seq<Seq<Seq<char>>>>) -> (r: Option<Face>)
    requires
        rows_hold(rows@, net),
    ensures
        r == (match token(net, (pos.0 as int, pos.1 as int)) {
            Some(ch) => face_of(net, ch),
            None => None,
        }),
{
    match token_exec(rows, pos, Ghost(net)) {
        Some(ch) => face_of_exec(rows, ch, Ghost(net)),
        None => None,
    }
}

/// The lines, split into words, and checked against the number of stickers per line.
fn read_rows(lines: &[String]) -> (r: Option<Vec<Vec<Vec<char>>>>)
    ensures
        r is Some <==> fits(net_rows(lines@)),
        r matches Some(rows) ==> rows_hold(rows@, net_rows(lines@)),
{
    let ghost net = net_rows(lines@);
    let n: usize = if lines.len() < 9 {
        lines.len()
    } else {
        9
    };
    let mut rows: Vec<Vec<Vec<char>>> = Vec::new();
    let mut i: usize = 0;
    while i < n
        invariant
            n == net.len(),
            n <= lines@.len(),
            net == net_rows(lines@),
            i <= n,
            rows@.len() == i,
            forall|a: int| 0 <= a < i ==> (#[trigger] rows@[a])@.len() == net[a].len(),
            forall|a: int, j: int| 0 <= a < i && 0 <= j < rows@[a]@.len() ==> (#[trigger] rows@[a]@[j])@ == net[a][j],
            forall|a: int| 0 <= a < i ==> #[trigger] net[a].len() <= row_len(a),
        decreases n - i,
    {
        let ws = split_words(lines[i].as_str());
        proof {
            assert(net[i as int] == words(lines@[i as int]@));
        }
        if ws.len() > row_len_exec(i) {
            return None;
        }
        rows.push(ws);
        i = i + 1;
    }
    proof {
        assert forall|a: int, j: int| 0 <= a < net.len() && 0 <= j < net[a].len() implies #[trigger] net[a][j].len() > 0 by {
            lemma_words_nonempty(lines@[a]@);
        }
    }
    Some(rows)
}

/// Decode edge slot `d`: the piece its stickers show, and whether it is flipped.
fn decode_edge(rows: &Vec<Vec<Vec<char>>>, d: Edge, Ghost(net): Ghost<Seq<Seq<Seq<char>>>>) -> (r: Option<(Edge, bool)>)
    requires
        rows_hold(rows@, net),
    ensures
        r is Some <==> edge_piece(net, d) is Some,
        r matches Some((p, fl)) ==> edge_piece(net, d) == Some(p) && fl == edge_flipped(net, d),
{
    reveal(edge_piece);
    reveal(edge_faces);
    reveal(edge_flipped);
    let f0 = faces_at(rows, edge_pos_exec(d, 0), Ghost(net));
    let f1 = faces_at(rows, edge_pos_exec(d, 1), Ghost(net));
    match (f0, f1) {
        (Some(f0), Some(f1)) => {
            match Edge::from_faces(f0, f1) {
                Ok(src) => {
                    proof {
                        let e = choose|e: Edge| e.faces() == (f0, f1) || e.faces() == (f1, f0);
                        lemma_edge_faces_unique(e, src, f0, f1);
                    }
                    Some((src, rank(f1) < rank(f0)))
                },
                Err(_) => None,
            }
        },
        _ => None,
    }
}

/// The piece number shown by edge slot `d`.
pub open spec fn edge_src(net: Seq<Seq<Seq<char>>>, d: Edge) -> int {
    edge_piece(net, d).unwrap().spec_coord()
}

/// `ep` sends the piece of each edge slot to the slot, and `bad` lists the flipped slots.
pub open spec fn edges_read(net: Seq<Seq<Seq<char>>>, ep: Seq<usize>, bad: Seq<Edge>) -> bool {
    &&& ep.len() == 12
    &&& forall|d: Edge| 0 <= #[trigger] edge_src(net, d) < 12
    &&& forall|d: Edge| #[trigger] ep[edge_src(net, d)] == d.spec_coord()
    &&& forall|i: int| 0 <= i < 12 ==> #[trigger] ep[i] < 12
    &&& forall|i: int, j: int| 0 <= i < 12 && 0 <= j < 12 && i != j ==> #[trigger] ep[i] != #[trigger] ep[j]
    &&& forall|j: int| 0 <= j < 16 ==> ((exists|t: int| 0 <= t < bad.len() && (#[trigger] bad[t]).spec_coord() == j)
        <==> (j < 12 && edge_flipped(net, Edge::spec_from_coord(j))))
}

/// The edge slots in coordinate order, decoded: the permutation (`ep[piece] = slot`) and
/// the flipped slots.
fn read_edges(rows: &Vec<Vec<Vec<char>>>, Ghost(net): Ghost<Seq<Seq<Seq<char>>>>) -> (r: Option<([usize; 12], Vec<Edge>)>)
    requires
        rows_hold(rows@, net),
    ensures
        r is Some <==> (forall|d: Edge| #[trigger] edge_piece(net, d) is Some) && (forall|d1: Edge, d2: Edge|
            d1 != d2 ==> #[trigger] edge_piece(net, d1) != #[trigger] edge_piece(net, d2)),
        r matches Some((ep, bad)) ==> edges_read(net, ep@, bad@),
{
    let mut ep: [usize; 12] = [0; 12];
    let mut owner: Vec<Option<usize>> = vec![None, None, None, None, None, None, None, None, None, None, None, None];
    let mut bad: Vec<Edge> = Vec::new();
    let all = Edge::all();
    let mut k: usize = 0;
    while k < 12
        invariant
            rows_hold(rows@, net),
            k <= 12,
            all@.len() == 12,
            forall|i: int| 0 <= i < 12 ==> (#[trigger] all@[i]).spec_coord() == i,
            owner@.len() == 12,
            forall|d: Edge| #[trigger] d.spec_coord() < k ==> edge_piece(net, d) is Some,
            forall|d: Edge| #[trigger] d.spec_coord() < k ==> owner@[edge_src(net, d)] == Some(d.spec_coord() as usize),
            forall|x: int| 0 <= x < 12 && #[trigger] owner@[x] is Some ==> {
                &&& owner@[x].unwrap() < k
                &&& edge_src(net, Edge::spec_from_coord(owner@[x].unwrap() as int)) == x
                &&& ep@[x] == owner@[x].unwrap()
            },
            forall|d: Edge| #[trigger] d.spec_coord() < k ==> 0 <= edge_src(net, d) < 12,
            forall|j: int| 0 <= j < 16 ==> ((exists|t: int| 0 <= t < bad@.len() && (#[trigger] bad@[t]).spec_coord() == j)
                <==> (j < k && edge_flipped(net, Edge::spec_from_coord(j)))),
        decreases 12 - k,
    {
        let d = all[k];
        proof {
            Edge::law_coord_roundtrip(d);
        }
        match decode_edge(rows, d, Ghost(net)) {
            Some((src, flipped)) => {
                let s = src.coord();
                if owner[s].is_some() {
                    proof {
                        let d1 = Edge::spec_from_coord(owner@[s as int].unwrap() as int);
                        Edge::law_coord_roundtrip(d1);
                        assert(d1 != d);
                        assert(edge_piece(net, d1) == edge_piece(net, d));
                    }
                    return None;
                }
                let ghost old_bad = bad@;
                let ghost old_owner = owner@;
                owner.set(s, Some(k));
                ep[s] = d.coord();
                if flipped {
                    bad.push(d);
                }
                proof {
                    assert forall|d2: Edge| #[trigger] d2.spec_coord() < k + 1 implies owner@[edge_src(net, d2)] == Some(d2.spec_coord() as usize) by {
                        if d2 != d {
                            assert(d2.spec_coord() < k);
                            assert(old_owner[edge_src(net, d2)] is Some);
                        }
                    }
                    assert forall|j: int| 0 <= j < 16 implies ((exists|t: int| 0 <= t < bad@.len() && (#[trigger] bad@[t]).spec_coord() == j)
                        <==> (j < k + 1 && edge_flipped(net, Edge::spec_from_coord(j)))) by {
                        if exists|t: int| 0 <= t < bad@.len() && (#[trigger] bad@[t]).spec_coord() == j {
                            let t = choose|t: int| 0 <= t < bad@.len() && (#[trigger] bad@[t]).spec_coord() == j;
                            if t < old_bad.len() {
                                assert(old_bad[t] == bad@[t]);
                            }
                        }
                        if j < k && edge_flipped(net, Edge::spec_from_coord(j)) {
                            let t = choose|t: int| 0 <= t < old_bad.len() && (#[trigger] old_bad[t]).spec_coord() == j;
                            assert(bad@[t] == old_bad[t]);
                        }
                        if j == k && edge_flipped(net, Edge::spec_from_coord(j)) {
                            assert(bad@[old_bad.len() as int] == d);
                        }
                    }
                }
            },
            None => {
                return None;
            },
        }
        k = k + 1;
    }
    proof {
        assert forall|d: Edge| #[trigger] edge_piece(net, d) is Some by {
            Edge::law_coord_roundtrip(d);
            assert(d.spec_coord() < 12);
        }
        assert forall|d: Edge| 0 <= #[trigger] edge_src(net, d) < 12 by {
            Edge::law_coord_roundtrip(d);
            assert(d.spec_coord() < 12);
        }
        lemma_slots_to_pieces(net, owner@, ep@);
        assert(edges_read(net, ep@, bad@));
    }
    Some((ep, bad))
}

/// `n` slots owning `n` pieces, each slot its own: every piece is owned.
proof fn lemma_owned_all(owner: Seq<Option<usize>>, g: spec_fn(int) -> int, n: int)
    requires
        0 <= n <= 16,
        owner.len() == n,
        forall|i: int| 0 <= i < n ==> 0 <= #[trigger] g(i) < n,
        forall|i: int| 0 <= i < n ==> owner[#[trigger] g(i)] == Some(i as usize),
    ensures
        forall|x: int| 0 <= x < n ==> #[trigger] owner[x] is Some,
{
    assert forall|i: int, j: int| 0 <= i < n && 0 <= j < n && i != j implies #[trigger] g(i) != #[trigger] g(j) by {
        assert(owner[g(i)] == Some(i as usize));
        assert(owner[g(j)] == Some(j as usize));
    }
    assert forall|x: int| 0 <= x < n implies #[trigger] owner[x] is Some by {
        lemma_injective_surjective(g, n, x);
        let i = choose|i: int| 0 <= i < n && #[trigger] g(i) == x;
        assert(owner[g(i)] == Some(i as usize));
    }
}

/// The edge with number `i` has number `i`.
proof fn lemma_edge_coord_of(i: int)
    requires
        0 <= i < 12,
    ensures
        Edge::spec_from_coord(i).spec_coord() == i,
{
}

/// With every slot decoded and each piece owned by one slot, every piece is owned, so the
/// pieces of different slots differ and `ep` is a permutation.
proof fn lemma_slots_to_pieces(net: Seq<Seq<Seq<char>>>, owner: Seq<Option<usize>>, ep: Seq<usize>)
    requires
        owner.len() == 12,
        ep.len() == 12,
        forall|d: Edge| #[trigger] d.spec_coord() < 12 ==> owner[edge_src(net, d)] == Some(d.spec_coord() as usize),
        forall|x: int| 0 <= x < 12 && #[trigger] owner[x] is Some ==> {
            &&& owner[x].unwrap() < 12
            &&& edge_src(net, Edge::spec_from_coord(owner[x].unwrap() as int)) == x
            &&& ep[x] == owner[x].unwrap()
        },
        forall|d: Edge| 0 <= #[trigger] edge_src(net, d) < 12,
    ensures
        forall|d1: Edge, d2: Edge| d1 != d2 ==> #[trigger] edge_piece(net, d1) != #[trigger] edge_piece(net, d2),
        forall|d: Edge| #[trigger] ep[edge_src(net, d)] == d.spec_coord(),
        forall|i: int| 0 <= i < 12 ==> #[trigger] ep[i] < 12,
        forall|i: int, j: int| 0 <= i < 12 && 0 <= j < 12 && i != j ==> #[trigger] ep[i] != #[trigger] ep[j],
{
    assert forall|d1: Edge, d2: Edge| d1 != d2 implies #[trigger] edge_piece(net, d1) != #[trigger] edge_piece(net, d2) by {
        Edge::law_coord_roundtrip(d1);
        Edge::law_coord_roundtrip(d2);
        assert(owner[edge_src(net, d1)] == Some(d1.spec_coord() as usize));
        assert(owner[edge_src(net, d2)] == Some(d2.spec_coord() as usize));
    }
    assert forall|d: Edge| #[trigger] ep[edge_src(net, d)] == d.spec_coord() by {
        Edge::law_coord_roundtrip(d);
        assert(owner[edge_src(net, d)] == Some(d.spec_coord() as usize));
    }
    let g = |i: int| edge_src(net, Edge::spec_from_coord(i));
    assert forall|i: int| 0 <= i < 12 implies owner[#[trigger] g(i)] == Some(i as usize) by {
        let d = Edge::spec_from_coord(i);
        lemma_edge_coord_of(i);
        assert(d.spec_coord() < 12);
    }
    assert forall|i: int| 0 <= i < 12 implies 0 <= #[trigger] g(i) < 12 by {}
    lemma_owned_all(owner, g, 12);
    assert forall|i: int, j: int| 0 <= i < 12 && 0 <= j < 12 && i != j implies #[trigger] ep[i] != #[trigger] ep[j] by {
        assert(owner[i] is Some);
        assert(owner[j] is Some);
        let a = owner[i].unwrap() as int;
        let b = owner[j].unwrap() as int;
        assert(g(a) == i);
        assert(g(b) == j);
    }
    assert forall|i: int| 0 <= i < 12 implies #[trigger] ep[i] < 12 by {
        assert(owner[i] is Some);
    }
}

/// Decode corner slot `d`: the piece its stickers show, and its twist.
fn decode_corner(rows: &Vec<Vec<Vec<char>>>, d: Corner, Ghost(net): Ghost<Seq<Seq<Seq<char>>>>) -> (r: Option<(Corner, u8)>)
    requires
        rows_hold(rows@, net),
    ensures
        r is Some <==> corner_piece(net, d) is Some,
        r matches Some((p, tw)) ==> corner_piece(net, d) == Some(p) && tw == corner_twist(net, d) && tw < 3,
{
    reveal(corner_piece);
    reveal(corner_faces);
    reveal(corner_twist);
    let f0 = faces_at(rows, corner_pos_exec(d, 0), Ghost(net));
    let f1 = faces_at(rows, corner_pos_exec(d, 1), Ghost(net));
    let f2 = faces_at(rows, corner_pos_exec(d, 2), Ghost(net));
    match (f0, f1, f2) {
        (Some(f0), Some(f1), Some(f2)) => {
            let twist: u8 = if rank(f0) <= rank(f1) && rank(f0) <= rank(f2) {
                0
            } else if rank(f1) <= rank(f2) {
                1
            } else {
                2
            };
            match Corner::from_faces(f0, f1, f2) {
                Ok(src) => {
                    proof {
                        let k = choose|k: Corner| is_sorting_of(k.faces(), f0, f1, f2);
                        lemma_corner_faces_unique(k, src, f0, f1, f2);
                    }
                    Some((src, twist))
                },
                Err(_) => None,
            }
        },
        _ => None,
    }
}

/// The piece number shown by corner slot `d`.
pub open spec fn corner_src(net: Seq<Seq<Seq<char>>>, d: Corner) -> int {
    corner_piece(net, d).unwrap().spec_coord()
}

/// `cp` sends the piece of each corner slot to the slot, and `twists` lists every slot with
/// its twist.
pub open spec fn corners_read(net: Seq<Seq<Seq<char>>>, cp: Seq<usize>, twists: Seq<(Corner, u8)>) -> bool {
    &&& cp.len() == 8
    &&& forall|d: Corner| 0 <= #[trigger] corner_src(net, d) < 8
    &&& forall|d: Corner| #[trigger] cp[corner_src(net, d)] == d.spec_coord()
    &&& forall|i: int| 0 <= i < 8 ==> #[trigger] cp[i] < 8
    &&& forall|i: int, j: int| 0 <= i < 8 && 0 <= j < 8 && i != j ==> #[trigger] cp[i] != #[trigger] cp[j]
    &&& twists.len() == 8
    &&& forall|t: int| 0 <= t < 8 ==> (#[trigger] twists[t]).0.spec_coord() == t && twists[t].1 == corner_twist(net, twists[t].0) && twists[t].1 < 3
}

/// The corner with number `i` has number `i`.
proof fn lemma_corner_coord_of(i: int)
    requires
        0 <= i < 8,
    ensures
        Corner::spec_from_coord(i).spec_coord() == i,
{
}

/// With every corner slot decoded and each piece owned by one slot, the pieces of different
/// slots differ and `cp` is a permutation.
proof fn lemma_corner_slots_to_pieces(net: Seq<Seq<Seq<char>>>, owner: Seq<Option<usize>>, cp: Seq<usize>)
    requires
        owner.len() == 8,
        cp.len() == 8,
        forall|d: Corner| #[trigger] d.spec_coord() < 8 ==> owner[corner_src(net, d)] == Some(d.spec_coord() as usize),
        forall|x: int| 0 <= x < 8 && #[trigger] owner[x] is Some ==> {
            &&& owner[x].unwrap() < 8
            &&& corner_src(net, Corner::spec_from_coord(owner[x].unwrap() as int)) == x
            &&& cp[x] == owner[x].unwrap()
        },
        forall|d: Corner| 0 <= #[trigger] corner_src(net, d) < 8,
    ensures
        forall|d1: Corner, d2: Corner| d1 != d2 ==> #[trigger] corner_piece(net, d1) != #[trigger] corner_piece(net, d2),
        forall|d: Corner| #[trigger] cp[corner_src(net, d)] == d.spec_coord(),
        forall|i: int| 0 <= i < 8 ==> #[trigger] cp[i] < 8,
        forall|i: int, j: int| 0 <= i < 8 && 0 <= j < 8 && i != j ==> #[trigger] cp[i] != #[trigger] cp[j],
{
    assert forall|d1: Corner, d2: Corner| d1 != d2 implies #[trigger] corner_piece(net, d1) != #[trigger] corner_piece(net, d2) by {
        Corner::law_coord_roundtrip(d1);
        Corner::law_coord_roundtrip(d2);
        assert(owner[corner_src(net, d1)] == Some(d1.spec_coord() as usize));
        assert(owner[corner_src(net, d2)] == Some(d2.spec_coord() as usize));
    }
    assert forall|d: Corner| #[trigger] cp[corner_src(net, d)] == d.spec_coord() by {
        Corner::law_coord_roundtrip(d);
        assert(owner[corner_src(net, d)] == Some(d.spec_coord() as usize));
    }
    let g = |i: int| corner_src(net, Corner::spec_from_coord(i));
    assert forall|i: int| 0 <= i < 8 implies owner[#[trigger] g(i)] == Some(i as usize) by {
        let d = Corner::spec_from_coord(i);
        lemma_corner_coord_of(i);
        assert(d.spec_coord() < 8);
    }
    assert forall|i: int| 0 <= i < 8 implies 0 <= #[trigger] g(i) < 8 by {}
    lemma_owned_all(owner, g, 8);
    assert forall|i: int, j: int| 0 <= i < 8 && 0 <= j < 8 && i != j implies #[trigger] cp[i] != #[trigger] cp[j] by {
        assert(owner[i] is Some);
        assert(owner[j] is Some);
        let a = owner[i].unwrap() as int;
        let b = owner[j].unwrap() as int;
        assert(g(a) == i);
        assert(g(b) == j);
    }
    assert forall|i: int| 0 <= i < 8 implies #[trigger] cp[i] < 8 by {
        assert(owner[i] is Some);
    }
}

/// The corner slots in coordinate order, decoded: the permutation (`cp[piece] = slot`) and
/// the twist of each slot.
fn read_corners(rows: &Vec<Vec<Vec<char>>>, Ghost(net): Ghost<Seq<Seq<Seq<char>>>>) -> (r: Option<([usize; 8], Vec<(Corner, u8)>)>)
    requires
        rows_hold(rows@, net),
    ensures
        r is Some <==> (forall|d: Corner| #[trigger] corner_piece(net, d) is Some) && (forall|d1: Corner, d2: Corner|
            d1 != d2 ==> #[trigger] corner_piece(net, d1) != #[trigger] corner_piece(net, d2)),
        r matches Some((cp, twists)) ==> corners_read(net, cp@, twists@),
{
    let mut cp: [usize; 8] = [0; 8];
    let mut owner: Vec<Option<usize>> = vec![None, None, None, None, None, None, None, None];
    let mut twists: Vec<(Corner, u8)> = Vec::new();
    let all = Corner::all();
    let mut k: usize = 0;
    while k < 8
        invariant
            rows_hold(rows@, net),
            k <= 8,
            all@.len() == 8,
            forall|i: int| 0 <= i < 8 ==> (#[trigger] all@[i]).spec_coord() == i,
            owner@.len() == 8,
            forall|d: Corner| #[trigger] d.spec_coord() < k ==> corner_piece(net, d) is Some,
            forall|d: Corner| #[trigger] d.spec_coord() < k ==> owner@[corner_src(net, d)] == Some(d.spec_coord() as usize),
            forall|d: Corner| #[trigger] d.spec_coord() < k ==> 0 <= corner_src(net, d) < 8,
            forall|x: int| 0 <= x < 8 && #[trigger] owner@[x] is Some ==> {
                &&& owner@[x].unwrap() < k
                &&& corner_src(net, Corner::spec_from_coord(owner@[x].unwrap() as int)) == x
                &&& cp@[x] == owner@[x].unwrap()
            },
            twists@.len() == k,
            forall|t: int| 0 <= t < k ==> (#[trigger] twists@[t]).0.spec_coord() == t && twists@[t].1 == corner_twist(net, twists@[t].0) && twists@[t].1 < 3,
        decreases 8 - k,
    {
        let d = all[k];
        proof {
            Corner::law_coord_roundtrip(d);
        }
        match decode_corner(rows, d, Ghost(net)) {
            Some((src, twist)) => {
                let s = src.coord();
                if owner[s].is_some() {
                    proof {
                        let d1 = Corner::spec_from_coord(owner@[s as int].unwrap() as int);
                        Corner::law_coord_roundtrip(d1);
                        assert(d1 != d);
                        assert(corner_piece(net, d1) == corner_piece(net, d));
                    }
                    return None;
                }
                let ghost old_owner = owner@;
                owner.set(s, Some(k));
                cp[s] = d.coord();
                twists.push((d, twist));
                proof {
                    assert forall|d2: Corner| #[trigger] d2.spec_coord() < k + 1 implies owner@[corner_src(net, d2)] == Some(d2.spec_coord() as usize) by {
                        if d2 != d {
                            assert(d2.spec_coord() < k);
                            assert(old_owner[corner_src(net, d2)] is Some);
                        }
                    }
                }
            },
            None => {
                return None;
            },
        }
        k = k + 1;
    }
    proof {
        assert forall|d: Corner| #[trigger] corner_piece(net, d) is Some by {
            Corner::law_coord_roundtrip(d);
            assert(d.spec_coord() < 8);
        }
        assert forall|d: Corner| 0 <= #[trigger] corner_src(net, d) < 8 by {
            Corner::law_coord_roundtrip(d);
            assert(d.spec_coord() < 8);
        }
        lemma_corner_slots_to_pieces(net, owner@, cp@);
        assert(corners_read(net, cp@, twists@));
    }
    Some((cp, twists))
}

/// The cube state shown by a net: nine lines of sticker colours laid out as the unfolded
/// cube; the colour of each centre names its face. `None` when the net does not show a cube
/// state (too many stickers on a line, a missing sticker or centre colour, a sticker
/// combination that is no piece, or a piece shown twice).
pub fn cube_from_net(lines: &[String]) -> (r: Option<Cube>)
    ensures
        r is Some <==> net_ok(net_rows(lines@)),
        r matches Some(c) ==> c.wf() && shows(net_rows(lines@), c),
{
    let ghost net = net_rows(lines@);
    let rows = match read_rows(lines) {
        Some(rows) => rows,
        None => {
            return None;
        },
    };
    let (ep, bad) = match read_edges(&rows, Ghost(net)) {
        Some(x) => x,
        None => {
            return None;
        },
    };
    let (cp, twists) = match read_corners(&rows, Ghost(net)) {
        Some(x) => x,
        None => {
            return None;
        },
    };
    proof {
        assert forall|t: int| 0 <= t < twists@.len() implies (#[trigger] twists@[t]).1 <= 3 by {}
    }
    let ep = Perm::<12>::from_dests(&ep);
    let eo = EO::from_bad_edges(&bad);
    let cp = Perm::<8>::from_dests(&cp);
    let co = CO::from_assoc(&twists);
    let c = Cube::new(eo, co, ep, cp);
    proof {
        assert(distinct_corners(twists@));
        assert forall|d: Edge|
            #![trigger edge_piece(net, d)]
            c.ep.dest_of(edge_piece(net, d).unwrap().spec_coord()) == d.spec_coord() && bit(
                c.eo.0,
                d.spec_coord(),
            ) == edge_flipped(net, d) by {
            Edge::law_coord_roundtrip(d);
            assert(0 <= edge_src(net, d) < 12);
            assert(edge_src(net, d) == edge_piece(net, d).unwrap().spec_coord());
        }
        assert forall|d: Corner|
            #![trigger corner_piece(net, d)]
            c.cp.dest_of(corner_piece(net, d).unwrap().spec_coord()) == d.spec_coord() && lane(
                c.co.0,
                d.spec_coord(),
            ) == corner_twist(net, d) by {
            Corner::law_coord_roundtrip(d);
            assert(0 <= corner_src(net, d) < 8);
            assert(corner_src(net, d) == corner_piece(net, d).unwrap().spec_coord());
            let t = d.spec_coord();
            assert(twists@[t].0.spec_coord() == t);
            Corner::law_coord_roundtrip(twists@[t].0);
        }
        assert forall|j: int| 12 <= j < 16 implies !#[trigger] bit(c.eo.0, j) by {}
        assert forall|k: int| 0 <= k < 8 implies #[trigger] lane(c.co.0, k) < 3 by {
            assert(twists@[k].0.spec_coord() == k);
        }
        assert(shows(net, c));
    }
    Some(c)
}

} // verus!
