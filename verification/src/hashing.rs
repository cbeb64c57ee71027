use vstd::prelude::*;
use crate::board::{
    cell_key, lemma_placement_update, passing_key, placement_key, position_key, side_key, Board,
};
use crate::castle::Castle;
use crate::color::Color;
use crate::piece::{lemma_piece_parts, Piece};
use crate::square::Square;
use crate::zobrist::{castling_key, key, keys_distinct};

verus! {

/// Two sound positions with the same pieces on the same squares, the same
/// side to move, the same castling rights and the same square of a capture
/// in passing have the same hash.
pub proof fn lemma_same_position_same_key<'a>(a: &Board<'a>, b: &Board<'a>)
    requires
        a.wf(),
        b.wf(),
        a.state.mailbox@ == b.state.mailbox@,
        a.color == b.color,
        a.state.castles == b.state.castles,
        a.state.enpassant == b.state.enpassant,
    ensures
        a.state.keys == b.state.keys,
{
}

/// The file of the square of a capture in passing, if there is one.
pub open spec fn passing_file(enpassant: Option<Square>) -> Option<int> {
    match enpassant {
        Some(square) => Some(square.file_idx()),
        None => None,
    }
}

/// With keys that are all different and not zero, a hash changes when the
/// side to move changes, when the castling rights change, when the file of
/// the capture in passing changes, or when the piece on one square changes,
/// everything else staying as it is.
pub proof fn lemma_changed_position_changed_key(
    cells: Seq<Option<Piece>>,
    castles: Castle,
    enpassant: Option<Square>,
    color: Color,
    other_castles: Castle,
    other_enpassant: Option<Square>,
    square: int,
    other_cell: Option<Piece>,
)
    requires
        keys_distinct(),
        cells.len() == 64,
        castles.wf(),
        other_castles.wf(),
        0 <= square < 64,
    ensures
        position_key(cells, castles, enpassant, color) != position_key(
            cells,
            castles,
            enpassant,
            color.other(),
        ),
        castles != other_castles ==> position_key(cells, castles, enpassant, color)
            != position_key(cells, other_castles, enpassant, color),
        passing_file(enpassant) != passing_file(other_enpassant) ==> position_key(
            cells,
            castles,
            enpassant,
            color,
        ) != position_key(cells, castles, other_enpassant, color),
        cells[square] != other_cell ==> position_key(cells, castles, enpassant, color)
            != position_key(cells.update(square, other_cell), castles, enpassant, color),
{
    let p = placement_key(cells, 64);
    let c = castling_key(castles.data as int);
    let e = passing_key(enpassant);
    let s = side_key(color);
    // The side to move.
    let side: int = 792;
    assert(key(side as nat) != 0);
    bv_differ(p, c, e, s, side_key(color.other()));
    // The castling rights.
    let c2 = castling_key(other_castles.data as int);
    if castles != other_castles {
        let i = 776 + castles.data as int;
        let j = 776 + other_castles.data as int;
        assert(key(i as nat) != key(j as nat)) by {
            if i < j {
                assert(key(i as nat) != key(j as nat));
            } else {
                assert(key(j as nat) != key(i as nat));
            }
        }
    }
    bv_differ(p, c, e, s, c2);
    // The file of the capture in passing.
    let e2 = passing_key(other_enpassant);
    if passing_file(enpassant) != passing_file(other_enpassant) {
        lemma_passing_keys(enpassant, other_enpassant);
    }
    bv_differ(p, c, e, s, e2);
    // The piece on one square.
    if cells[square] != other_cell {
        lemma_placement_update(cells, square, other_cell, 64);
        lemma_cell_keys(cells[square], other_cell, square);
        bv_differ(p, cell_key(cells[square], square), cell_key(other_cell, square), c ^ e ^ s, 0);
        bv_cells(p, cell_key(cells[square], square), cell_key(other_cell, square), c, e, s);
    }
}

proof fn bv_differ(p: u64, c: u64, e: u64, s: u64, x: u64)
    by (bit_vector)
    ensures
        s != x ==> p ^ c ^ e ^ s != p ^ c ^ e ^ x,
        c != x ==> p ^ c ^ e ^ s != p ^ x ^ e ^ s,
        e != x ==> p ^ c ^ e ^ s != p ^ c ^ x ^ s,
{
}

proof fn bv_cells(p: u64, a: u64, b: u64, c: u64, e: u64, s: u64)
    by (bit_vector)
    ensures
        a != b ==> p ^ c ^ e ^ s != (p ^ a ^ b) ^ c ^ e ^ s,
{
}

/// Different files of a capture in passing, or one and none, have
/// different keys.
proof fn lemma_passing_keys(a: Option<Square>, b: Option<Square>)
    requires
        keys_distinct(),
        passing_file(a) != passing_file(b),
    ensures
        passing_key(a) != passing_key(b),
{
    match (a, b) {
        (Some(x), Some(y)) => {
            let i = 768 + x.file_idx();
            let j = 768 + y.file_idx();
            if i < j {
                assert(key(i as nat) != key(j as nat));
            } else {
                assert(key(j as nat) != key(i as nat));
            }
        },
        (Some(x), None) => {
            assert(key((768 + x.file_idx()) as nat) != 0);
        },
        (None, Some(y)) => {
            assert(key((768 + y.file_idx()) as nat) != 0);
        },
        (None, None) => {},
    }
}

/// Different pieces on a square, or a piece and none, have different keys.
proof fn lemma_cell_keys(a: Option<Piece>, b: Option<Piece>, square: int)
    requires
        keys_distinct(),
        0 <= square < 64,
        a != b,
    ensures
        cell_key(a, square) != cell_key(b, square),
{
    match (a, b) {
        (Some(x), Some(y)) => {
            lemma_piece_parts(x);
            lemma_piece_parts(y);
            let i = x.idx() * 64 + square;
            let j = y.idx() * 64 + square;
            if i < j {
                assert(key(i as nat) != key(j as nat));
            } else {
                assert(key(j as nat) != key(i as nat));
            }
        },
        (Some(x), None) => {
            lemma_piece_parts(x);
            assert(key((x.idx() * 64 + square) as nat) != 0);
        },
        (None, Some(y)) => {
            lemma_piece_parts(y);
            assert(key((y.idx() * 64 + square) as nat) != 0);
        },
        (None, None) => {},
    }
}

} // verus!
