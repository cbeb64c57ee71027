use vstd::prelude::*;
use crate::attack::{
    bishop_reach, king_hits, king_mask, knight_hits, knight_mask, lemma_step_masks, pawn_hits,
    pawn_mask, rook_reach,
};
use crate::bits::{
    bit, lemma_bit_and, lemma_bit_or, lemma_bit_single, lemma_bit_test, lemma_bit_zero,
    lemma_lowest, lemma_nonzero_bit, lemma_popcount_one, popcount, single,
};
use crate::board::{Board, State};
use crate::color::Color;
use crate::magic::{ray, rays, room, step_ok};
use crate::mask::between_has;
use crate::piece::{Piece, PieceKind};
use crate::tables::{between_bits, lemma_between_has};

verus! {

/// Whether rank `ri`, file `fi` lies ahead of rank `r`, file `f` in the
/// direction of a step: some number of steps away, one at least.
pub open spec fn ahead(r: int, f: int, dr: int, df: int, ri: int, fi: int) -> bool {
    &&& (dr == 0 ==> ri == r)
    &&& (dr == 1 ==> ri > r)
    &&& (dr == -1 ==> ri < r)
    &&& (df == 0 ==> fi == f)
    &&& (df == 1 ==> fi > f)
    &&& (df == -1 ==> fi < f)
    &&& (dr != 0 && df != 0 ==> vstd::math::abs(ri - r) == vstd::math::abs(fi - f))
}

/// Whether no square strictly between rank `r`, file `f` and the square
/// numbered `i`, which lies ahead of it, is occupied.
pub open spec fn open_way(r: int, f: int, dr: int, df: int, occ: u64, i: int) -> bool {
    forall|s: int|
        0 <= s < 64 && ahead(r, f, dr, df, s / 8, s % 8) && ahead(s / 8, s % 8, dr, df, i / 8, i % 8)
            ==> !#[trigger] bit(occ, s)
}

/// A slider's walk in one direction reaches exactly the squares ahead that
/// no occupied square parts from where the walk begins.
pub proof fn lemma_ray_sees(r: int, f: int, dr: int, df: int, occ: u64, i: int)
    requires
        step_ok(dr, df),
        0 <= r < 8,
        0 <= f < 8,
        0 <= i < 64,
    ensures
        bit(ray(r, f, dr, df, occ), i) == (ahead(r, f, dr, df, i / 8, i % 8) && open_way(
            r,
            f,
            dr,
            df,
            occ,
            i,
        )),
    decreases room(r, f, dr, df),
{
    let r1 = r + dr;
    let f1 = f + df;
    let ri = i / 8;
    let fi = i % 8;
    if 0 <= r1 < 8 && 0 <= f1 < 8 {
        let s1 = r1 * 8 + f1;
        let b = single(s1);
        lemma_bit_test(occ, s1);
        lemma_bit_single(s1, i);
        assert(s1 / 8 == r1 && s1 % 8 == f1);
        if occ & b != 0 {
            if i == s1 {
                assert(open_way(r, f, dr, df, occ, i));
            } else if ahead(r, f, dr, df, ri, fi) {
                assert(ahead(r, f, dr, df, s1 / 8, s1 % 8));
                assert(ahead(s1 / 8, s1 % 8, dr, df, ri, fi));
                assert(bit(occ, s1));
            }
        } else {
            lemma_bit_or(b, ray(r1, f1, dr, df, occ), i);
            lemma_ray_sees(r1, f1, dr, df, occ, i);
            if i == s1 {
                assert(open_way(r, f, dr, df, occ, i));
            } else if ahead(r, f, dr, df, ri, fi) {
                assert(ahead(r1, f1, dr, df, ri, fi));
                if open_way(r1, f1, dr, df, occ, i) {
                    assert forall|s: int|
                        0 <= s < 64 && ahead(r, f, dr, df, s / 8, s % 8) && ahead(
                            s / 8,
                            s % 8,
                            dr,
                            df,
                            ri,
                            fi,
                        ) implies !#[trigger] bit(occ, s) by {
                        if s != s1 {
                            assert(ahead(r1, f1, dr, df, s / 8, s % 8));
                        }
                    }
                }
                if open_way(r, f, dr, df, occ, i) {
                    assert forall|s: int|
                        0 <= s < 64 && ahead(r1, f1, dr, df, s / 8, s % 8) && ahead(
                            s / 8,
                            s % 8,
                            dr,
                            df,
                            ri,
                            fi,
                        ) implies !#[trigger] bit(occ, s) by {
                        assert(ahead(r, f, dr, df, s / 8, s % 8));
                    }
                }
            }
        }
    } else {
        lemma_bit_zero(i);
    }
}

/// Whether two squares lie on one rank or one file.
pub open spec fn in_line(a: int, i: int) -> bool {
    a != i && (a / 8 == i / 8 || a % 8 == i % 8)
}

/// Whether two squares lie on one diagonal.
pub open spec fn in_diagonal(a: int, i: int) -> bool {
    a != i && vstd::math::abs(a / 8 - i / 8) == vstd::math::abs(a % 8 - i % 8)
}

/// Whether no square strictly between two squares on one line is occupied.
pub open spec fn clear_between(a: int, i: int, occ: u64) -> bool {
    between_bits(a, i) & occ == 0
}

/// Between two squares of which one lies ahead of the other, the squares of
/// the way are the squares between the two.
proof fn lemma_way_is_between(a: int, dr: int, df: int, occ: u64, i: int)
    requires
        step_ok(dr, df),
        0 <= a < 64,
        0 <= i < 64,
        ahead(a / 8, a % 8, dr, df, i / 8, i % 8),
    ensures
        open_way(a / 8, a % 8, dr, df, occ, i) == clear_between(a, i, occ),
{
    let gap = between_bits(a, i);
    if clear_between(a, i, occ) {
        assert forall|s: int|
            0 <= s < 64 && ahead(a / 8, a % 8, dr, df, s / 8, s % 8) && ahead(
                s / 8,
                s % 8,
                dr,
                df,
                i / 8,
                i % 8,
            ) implies !#[trigger] bit(occ, s) by {
            lemma_between_has(a, i, s);
            assert(between_has(a, i, s));
            lemma_bit_and(gap, occ, s);
            lemma_bit_zero(s);
        }
    }
    if open_way(a / 8, a % 8, dr, df, occ, i) {
        if gap & occ != 0 {
            lemma_nonzero_bit(gap & occ);
            let s = choose|s: int| 0 <= s < 64 && bit(gap & occ, s);
            lemma_bit_and(gap, occ, s);
            lemma_between_has(a, i, s);
            assert(ahead(a / 8, a % 8, dr, df, s / 8, s % 8));
            assert(ahead(s / 8, s % 8, dr, df, i / 8, i % 8));
            assert(!bit(occ, s));
        }
    }
}

/// A rook attacks the squares of its rank and file that no occupied square
/// parts from it.
pub proof fn lemma_rook_sees(a: int, occ: u64, i: int)
    requires
        0 <= a < 64,
        0 <= i < 64,
    ensures
        bit(rook_reach(a, occ), i) == (in_line(a, i) && clear_between(a, i, occ)),
{
    reveal_with_fuel(rays, 5);
    let r = a / 8;
    let f = a % 8;
    let w0 = ray(r, f, -1, 0, occ);
    let w1 = ray(r, f, 0, -1, occ);
    let w2 = ray(r, f, 0, 1, occ);
    let w3 = ray(r, f, 1, 0, occ);
    assert(rook_reach(a, occ) == (((0 | w0) | w1) | w2) | w3);
    lemma_bit_zero(i);
    lemma_bit_or(0, w0, i);
    lemma_bit_or(0 | w0, w1, i);
    lemma_bit_or((0 | w0) | w1, w2, i);
    lemma_bit_or(((0 | w0) | w1) | w2, w3, i);
    lemma_ray_sees(r, f, -1, 0, occ, i);
    lemma_ray_sees(r, f, 0, -1, occ, i);
    lemma_ray_sees(r, f, 0, 1, occ, i);
    lemma_ray_sees(r, f, 1, 0, occ, i);
    if ahead(r, f, -1, 0, i / 8, i % 8) {
        lemma_way_is_between(a, -1, 0, occ, i);
    }
    if ahead(r, f, 0, -1, i / 8, i % 8) {
        lemma_way_is_between(a, 0, -1, occ, i);
    }
    if ahead(r, f, 0, 1, i / 8, i % 8) {
        lemma_way_is_between(a, 0, 1, occ, i);
    }
    if ahead(r, f, 1, 0, i / 8, i % 8) {
        lemma_way_is_between(a, 1, 0, occ, i);
    }
}

/// A bishop attacks the squares of its diagonals that no occupied square
/// parts from it.
pub proof fn lemma_bishop_sees(a: int, occ: u64, i: int)
    requires
        0 <= a < 64,
        0 <= i < 64,
    ensures
        bit(bishop_reach(a, occ), i) == (in_diagonal(a, i) && clear_between(a, i, occ)),
{
    reveal_with_fuel(rays, 5);
    let r = a / 8;
    let f = a % 8;
    let w0 = ray(r, f, -1, -1, occ);
    let w1 = ray(r, f, -1, 1, occ);
    let w2 = ray(r, f, 1, -1, occ);
    let w3 = ray(r, f, 1, 1, occ);
    assert(bishop_reach(a, occ) == (((0 | w0) | w1) | w2) | w3);
    lemma_bit_zero(i);
    lemma_bit_or(0, w0, i);
    lemma_bit_or(0 | w0, w1, i);
    lemma_bit_or((0 | w0) | w1, w2, i);
    lemma_bit_or(((0 | w0) | w1) | w2, w3, i);
    lemma_ray_sees(r, f, -1, -1, occ, i);
    lemma_ray_sees(r, f, -1, 1, occ, i);
    lemma_ray_sees(r, f, 1, -1, occ, i);
    lemma_ray_sees(r, f, 1, 1, occ, i);
    if ahead(r, f, -1, -1, i / 8, i % 8) {
        lemma_way_is_between(a, -1, -1, occ, i);
    }
    if ahead(r, f, -1, 1, i / 8, i % 8) {
        lemma_way_is_between(a, -1, 1, occ, i);
    }
    if ahead(r, f, 1, -1, i / 8, i % 8) {
        lemma_way_is_between(a, 1, -1, occ, i);
    }
    if ahead(r, f, 1, 1, i / 8, i % 8) {
        lemma_way_is_between(a, 1, 1, occ, i);
    }
}

/// The squares between two squares are the same from either end.
pub proof fn lemma_between_turn(a: int, b: int)
    requires
        0 <= a < 64,
        0 <= b < 64,
    ensures
        between_bits(a, b) == between_bits(b, a),
{
    assert forall|s: int| 0 <= s < 64 implies bit(between_bits(a, b), s) == bit(
        between_bits(b, a),
        s,
    ) by {
        lemma_between_has(a, b, s);
        lemma_between_has(b, a, s);
    }
    crate::bits::lemma_bits_ext(between_bits(a, b), between_bits(b, a));
}

/// The snipers of a side are the bishops and queens of the other side on a
/// diagonal of its king, and the rooks and queens of the other side on the
/// king's rank or file.
pub proof fn lemma_snipers(state: &State, color: Color, q: int)
    requires
        state.board_ok(),
        state.has_king(color),
        0 <= q < 64,
    ensures
        bit(state.snipers_of(color), q) == (state.mailbox[q] matches Some(piece)
            && piece.color_spec() == color.other() && match piece.kind_spec() {
            PieceKind::Bishop => in_diagonal(state.king_at(color), q),
            PieceKind::Rook => in_line(state.king_at(color), q),
            PieceKind::Queen => in_diagonal(state.king_at(color), q) || in_line(
                state.king_at(color),
                q,
            ),
            _ => false,
        }),
{
    crate::bits::lemma_lowest(state.king_bits(color));
    let king = state.king_at(color);
    let diagonal = bishop_reach(king, 0) & state.diagonal_bits();
    let straight = rook_reach(king, 0) & state.straight_bits();
    let them = state.colors[color.other().idx()].data;
    lemma_bit_and(diagonal | straight, them, q);
    lemma_bit_or(diagonal, straight, q);
    lemma_bit_and(bishop_reach(king, 0), state.diagonal_bits(), q);
    lemma_bit_and(rook_reach(king, 0), state.straight_bits(), q);
    lemma_bit_or(state.pieces[2].data, state.pieces[4].data, q);
    lemma_bit_or(state.pieces[3].data, state.pieces[4].data, q);
    lemma_bishop_sees(king, 0, q);
    lemma_rook_sees(king, 0, q);
    let gap = between_bits(king, q);
    assert(gap & 0 == 0) by (bit_vector);
    assert(bit(state.pieces[2].data, q) == (state.mailbox[q] matches Some(p)
        && p.kind_spec().idx() == 2));
    assert(bit(state.pieces[3].data, q) == (state.mailbox[q] matches Some(p)
        && p.kind_spec().idx() == 3));
    assert(bit(state.pieces[4].data, q) == (state.mailbox[q] matches Some(p)
        && p.kind_spec().idx() == 4));
    assert(bit(state.colors[color.other().idx()].data, q) == (state.mailbox[q] matches Some(p)
        && p.color_spec().idx() == color.other().idx()));
}

/// A sniper pins the piece on a square exactly if the piece is of the
/// king's side and is the one piece that stands between the king and the
/// sniper.
pub proof fn lemma_pin(state: &State, color: Color, q: int, s: int)
    requires
        0 <= s < 64,
    ensures
        bit(state.pin_of(color, q), s) == (bit(state.colors[color.idx()].data, s)
            && between_bits(state.king_at(color), q) & state.occupied_bits() == single(s)),
{
    let way = between_bits(state.king_at(color), q) & state.occupied_bits();
    lemma_popcount_one(way);
    lemma_bit_and(way, state.colors[color.idx()].data, s);
    lemma_bit_zero(s);
    lemma_bit_single(s, s);
    if popcount(way) == 1 {
        let j = choose|j: int| 0 <= j < 64 && way == #[trigger] single(j);
        lemma_bit_single(j, s);
    } else {
        if way == single(s) {
            assert(0 <= s < 64 && way == single(s));
        }
    }
}

/// Whether the piece on the square numbered `q` pins the piece on the
/// square numbered `s` against the king of `color`: the first is a bishop or
/// queen of the other side on a diagonal of the king, or a rook or queen of
/// the other side on the king's rank or file; the second is a piece of
/// `color`; and the second stands on the only occupied square strictly
/// between the king and the first.
pub open spec fn pins(state: &State, color: Color, q: int, s: int) -> bool {
    let king = state.king_at(color);
    &&& (state.mailbox[q] matches Some(piece) && piece.color_spec() == color.other()
        && match piece.kind_spec() {
        PieceKind::Bishop => in_diagonal(king, q),
        PieceKind::Rook => in_line(king, q),
        PieceKind::Queen => in_diagonal(king, q) || in_line(king, q),
        _ => false,
    })
    &&& (state.mailbox[s] matches Some(piece) && piece.color_spec() == color)
    &&& between_bits(king, q) & state.occupied_bits() == single(s)
}

/// Whether `piece`, standing on the square numbered `s`, attacks the square
/// numbered `t` when the squares of `occupied` are occupied: a pawn, knight
/// or king by its step, a slider if the two squares share a line that it
/// moves along and no occupied square lies between them.
pub open spec fn strikes(piece: Piece, s: int, t: int, occupied: u64) -> bool {
    match piece.kind_spec() {
        PieceKind::Pawn => pawn_hits(piece.color_spec(), s, t),
        PieceKind::Knight => knight_hits(s, t),
        PieceKind::King => king_hits(s, t),
        PieceKind::Bishop => in_diagonal(s, t) && clear_between(
            s,
            t,
            occupied,
        ),
        PieceKind::Rook => in_line(s, t) && clear_between(
            s,
            t,
            occupied,
        ),
        PieceKind::Queen => (in_diagonal(s, t) || in_line(s, t))
            && clear_between(s, t, occupied),
    }
}

/// The attackers of a square are the squares whose piece attacks it.
pub proof fn lemma_attackers(state: &State, t: int, occupied: u64, s: int)
    requires
        state.board_ok(),
        0 <= t < 64,
        0 <= s < 64,
    ensures
        bit(state.attackers_of(t, occupied), s) == (state.mailbox[s] matches Some(piece)
            && strikes(piece, s, t, occupied)),
{
    let white = pawn_mask(Color::White, t) & state.colors[1].data & state.pieces[0].data;
    let black = pawn_mask(Color::Black, t) & state.colors[0].data & state.pieces[0].data;
    let king = king_mask(t) & state.pieces[5].data;
    let knight = knight_mask(t) & state.pieces[1].data;
    let diagonal = bishop_reach(t, occupied) & state.diagonal_bits();
    let straight = rook_reach(t, occupied) & state.straight_bits();
    lemma_bit_or(white | black | king | knight | diagonal, straight, s);
    lemma_bit_or(white | black | king | knight, diagonal, s);
    lemma_bit_or(white | black | king, knight, s);
    lemma_bit_or(white | black, king, s);
    lemma_bit_or(white, black, s);
    lemma_bit_and(pawn_mask(Color::White, t) & state.colors[1].data, state.pieces[0].data, s);
    lemma_bit_and(pawn_mask(Color::White, t), state.colors[1].data, s);
    lemma_bit_and(pawn_mask(Color::Black, t) & state.colors[0].data, state.pieces[0].data, s);
    lemma_bit_and(pawn_mask(Color::Black, t), state.colors[0].data, s);
    lemma_bit_and(king_mask(t), state.pieces[5].data, s);
    lemma_bit_and(knight_mask(t), state.pieces[1].data, s);
    lemma_bit_and(bishop_reach(t, occupied), state.diagonal_bits(), s);
    lemma_bit_and(rook_reach(t, occupied), state.straight_bits(), s);
    lemma_bit_or(state.pieces[2].data, state.pieces[4].data, s);
    lemma_bit_or(state.pieces[3].data, state.pieces[4].data, s);
    lemma_step_masks(t, s);
    lemma_step_masks(s, t);
    lemma_bishop_sees(t, occupied, s);
    lemma_rook_sees(t, occupied, s);
    lemma_between_turn(s, t);
    assert(bit(state.pieces[0].data, s) == (state.mailbox[s] matches Some(p)
        && p.kind_spec().idx() == 0));
    assert(bit(state.pieces[1].data, s) == (state.mailbox[s] matches Some(p)
        && p.kind_spec().idx() == 1));
    assert(bit(state.pieces[2].data, s) == (state.mailbox[s] matches Some(p)
        && p.kind_spec().idx() == 2));
    assert(bit(state.pieces[3].data, s) == (state.mailbox[s] matches Some(p)
        && p.kind_spec().idx() == 3));
    assert(bit(state.pieces[4].data, s) == (state.mailbox[s] matches Some(p)
        && p.kind_spec().idx() == 4));
    assert(bit(state.pieces[5].data, s) == (state.mailbox[s] matches Some(p)
        && p.kind_spec().idx() == 5));
    assert(bit(state.colors[0].data, s) == (state.mailbox[s] matches Some(p)
        && p.color_spec().idx() == 0));
    assert(bit(state.colors[1].data, s) == (state.mailbox[s] matches Some(p)
        && p.color_spec().idx() == 1));
}

/// In a sound position the checkers are the pieces of the other side that
/// attack the square of the king of the side to move.
pub proof fn lemma_checkers<'a>(board: &Board<'a>, s: int)
    requires
        board.wf(),
        0 <= s < 64,
    ensures
        bit(board.state.checkers.data, s) == (board.state.has_king(board.color) && (
        board.state.mailbox[s] matches Some(piece) && piece.color_spec() == board.color.other()
            && strikes(
            piece,
            s,
            board.state.king_at(board.color),
            board.state.occupied_bits(),
        ))),
{
    let state = &board.state;
    let us = board.color;
    if state.has_king(us) {
        lemma_lowest(state.king_bits(us));
        let king = state.king_at(us);
        lemma_attackers(state, king, state.occupied_bits(), s);
        lemma_bit_and(
            state.attackers_of(king, state.occupied_bits()),
            state.colors[us.other().idx()].data,
            s,
        );
        assert(bit(state.colors[us.other().idx()].data, s) == (state.mailbox[s] matches Some(p)
            && p.color_spec().idx() == us.other().idx()));
    } else {
        lemma_bit_zero(s);
    }
}

/// A square is among the pieces that the snipers on the first `n` squares
/// pin exactly if one of these snipers pins the piece on it.
pub proof fn lemma_pins(state: &State, color: Color, n: int, s: int)
    requires
        0 <= n <= 64,
        0 <= s < 64,
    ensures
        bit(state.pins_upto(color, n), s) == (exists|q: int|
            0 <= q < n && bit(state.snipers_of(color), q) && #[trigger] bit(
                state.pin_of(color, q),
                s,
            )),
    decreases n,
{
    if n > 0 {
        lemma_pins(state, color, n - 1, s);
        let rest = state.pins_upto(color, n - 1);
        let last = if bit(state.snipers_of(color), n - 1) {
            state.pin_of(color, n - 1)
        } else {
            0
        };
        lemma_bit_or(rest, last, s);
        lemma_bit_zero(s);
        if bit(state.pins_upto(color, n), s) {
            if bit(rest, s) {
                let q = choose|q: int|
                    0 <= q < n - 1 && bit(state.snipers_of(color), q) && #[trigger] bit(
                        state.pin_of(color, q),
                        s,
                    );
                assert(0 <= q < n && bit(state.snipers_of(color), q) && bit(
                    state.pin_of(color, q),
                    s,
                ));
            } else {
                assert(bit(state.pin_of(color, n - 1), s));
            }
        }
    } else {
        lemma_bit_zero(s);
    }
}

/// In a sound position the pinned pieces of a side are the pieces of that
/// side that stand alone between their king and a slider of the other side
/// on a line that the slider moves along.
pub proof fn lemma_blockers<'a>(board: &Board<'a>, color: Color, s: int)
    requires
        board.wf(),
        0 <= s < 64,
    ensures
        bit(board.state.blockers[color.idx()].data, s) == (board.state.has_king(color)
            && exists|q: int| 0 <= q < 64 && #[trigger] pins(&board.state, color, q, s)),
{
    let state = &board.state;
    if state.has_king(color) {
        lemma_pins(state, color, 64, s);
        assert(bit(state.colors[color.idx()].data, s) == (state.mailbox[s] matches Some(p)
            && p.color_spec().idx() == color.idx()));
        if bit(state.blockers[color.idx()].data, s) {
            let q = choose|q: int|
                0 <= q < 64 && bit(state.snipers_of(color), q) && #[trigger] bit(
                    state.pin_of(color, q),
                    s,
                );
            lemma_snipers(state, color, q);
            lemma_pin(state, color, q, s);
            assert(pins(state, color, q, s));
        }
        if exists|q: int| 0 <= q < 64 && #[trigger] pins(state, color, q, s) {
            let q = choose|q: int| 0 <= q < 64 && #[trigger] pins(state, color, q, s);
            lemma_snipers(state, color, q);
            lemma_pin(state, color, q, s);
            assert(0 <= q < 64 && bit(state.snipers_of(color), q) && bit(
                state.pin_of(color, q),
                s,
            ));
        }
    } else {
        lemma_bit_zero(s);
    }
}

} // verus!
