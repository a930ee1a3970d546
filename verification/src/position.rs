use vstd::prelude::*;
use crate::attacks::between_spec;
use crate::bits::bit;
use crate::board::{Board, Cell};
use crate::board_state::{holds, kind};
use crate::geometry::{bishop_line, king_rel, knight_rel, pawn_rel, path_clear, rook_line};
use crate::piece::{Color, Piece};
use crate::state_info::StateInfo;

verus! {

/// No piece stands strictly between `a` and `b`.
pub open spec fn empty_between(cells: Seq<Cell>, a: int, b: int) -> bool {
    forall|u: int| 0 <= u < 64 && #[trigger] between_spec(a, b, u) ==> cells[u] is None
}

/// The piece of kind `p` and colour `c` standing on `a` attacks `t`, sliders looking
/// through the squares that `clear` says are empty.
pub open spec fn piece_attacks(p: Piece, c: Color, a: int, t: int, clear: bool) -> bool {
    match p {
        Piece::Pawn => pawn_rel(c, a, t),
        Piece::Knight => knight_rel(a, t),
        Piece::King => king_rel(a, t),
        Piece::Bishop => bishop_line(a, t) && clear,
        Piece::Rook => rook_line(a, t) && clear,
        Piece::Queen => (rook_line(a, t) || bishop_line(a, t)) && clear,
    }
}

/// The piece on `a` attacks `t`.
pub open spec fn attacks_sq(cells: Seq<Cell>, a: int, t: int) -> bool {
    cells[a] is Some && piece_attacks(kind(cells[a]), cells[a].unwrap().0, a, t, empty_between(cells, a, t))
}

/// Some piece of colour `by` attacks `t`.
pub open spec fn attacked_by(cells: Seq<Cell>, t: int, by: Color) -> bool {
    exists|a: int| 0 <= a < 64 && holds(cells[a], by) && #[trigger] attacks_sq(cells, a, t)
}

/// Colour `c` has exactly one king, on square `k`.
pub open spec fn sole_king(cells: Seq<Cell>, c: Color, k: int) -> bool {
    &&& 0 <= k < 64
    &&& cells[k] == Some((c, Piece::King))
    &&& forall|s: int| 0 <= s < 64 && #[trigger] cells[s] == Some((c, Piece::King)) ==> s == k
}

/// Colour `c` has exactly one king.
pub open spec fn one_king(cells: Seq<Cell>, c: Color) -> bool {
    exists|k: int| sole_king(cells, c, k)
}

/// The square of the king of colour `c`.
pub open spec fn king_square(cells: Seq<Cell>, c: Color) -> int {
    choose|k: int| sole_king(cells, c, k)
}

/// No pawn stands on the first or the last rank.
pub open spec fn pawns_inside(cells: Seq<Cell>) -> bool {
    forall|s: int|
        0 <= s < 64 && #[trigger] cells[s] is Some && kind(cells[s]) == Piece::Pawn ==> 8 <= s < 56
}

/// Each castling right still held has its king and rook on their starting squares.
pub open spec fn castle_ok(cells: Seq<Cell>, cr: u8) -> bool {
    &&& (cr & 8u8 != 0 ==> cells[4] == Some((Color::White, Piece::King)) && cells[7] == Some(
        (Color::White, Piece::Rook),
    ))
    &&& (cr & 4u8 != 0 ==> cells[4] == Some((Color::White, Piece::King)) && cells[0] == Some(
        (Color::White, Piece::Rook),
    ))
    &&& (cr & 2u8 != 0 ==> cells[60] == Some((Color::Black, Piece::King)) && cells[63] == Some(
        (Color::Black, Piece::Rook),
    ))
    &&& (cr & 1u8 != 0 ==> cells[60] == Some((Color::Black, Piece::King)) && cells[56] == Some(
        (Color::Black, Piece::Rook),
    ))
}

/// The placement that an en passant capture on `e` leaves on the two squares it
/// changes besides the capturing pawn's own: the pawn that has just advanced two
/// squares gone, and a pawn of `c`, the side to move, on `e`.
pub open spec fn ep_opened(cells: Seq<Cell>, c: Color, e: int) -> Seq<Cell> {
    match c {
        Color::White => cells.update(e - 8, None).update(e, Some((Color::White, Piece::Pawn))),
        Color::Black => cells.update(e + 8, None).update(e, Some((Color::Black, Piece::Pawn))),
    }
}

/// The pawn that has just advanced two squares, past `e`, keeps no line to the king of
/// `c` closed on its own: every piece (kings aside) that would attack that king with
/// the pawn gone and `e` filled attacks it already.
pub open spec fn ep_shields_nothing(cells: Seq<Cell>, c: Color, e: int) -> bool {
    let k = king_square(cells, c);
    let o = ep_opened(cells, c, e);
    forall|a: int|
        0 <= a < 64 && holds(o[a], c.opposite()) && kind(o[a]) != Piece::King && #[trigger] attacks_sq(o, a, k)
            ==> attacks_sq(cells, a, k)
}

/// An en passant square, when set, is the square just passed by a pawn of the side
/// not to move that has just advanced two squares, and that pawn does not on its own
/// keep a line to the king of the side to move closed.
pub open spec fn ep_ok(cells: Seq<Cell>, si: StateInfo) -> bool {
    match si.ep_square {
        None => true,
        Some(sq) => {
            let e = sq.0 as int;
            let c = si.active_color;
            &&& cells[e] is None
            &&& match c {
                Color::White => 40 <= e < 48 && cells[e - 8] == Some((Color::Black, Piece::Pawn))
                    && cells[e + 8] is None,
                Color::Black => 16 <= e < 24 && cells[e + 8] == Some((Color::White, Piece::Pawn))
                    && cells[e - 8] is None,
            }
            &&& ep_shields_nothing(cells, c, e)
        },
    }
}

/// A legal position: one king each, no pawn on the first or last rank, the side that
/// just moved not in check, castling rights matching the king and rook squares, and an
/// en passant square that fits (see `ep_ok`).
pub open spec fn legal_position(cells: Seq<Cell>, si: StateInfo) -> bool {
    &&& cells.len() == 64
    &&& one_king(cells, Color::White)
    &&& one_king(cells, Color::Black)
    &&& pawns_inside(cells)
    &&& !attacked_by(cells, king_square(cells, si.active_color.opposite()), si.active_color)
    &&& castle_ok(cells, si.castle_rights)
    &&& ep_ok(cells, si)
}

/// On a well-formed board the occupancy bitboard tells exactly which squares are empty.
pub proof fn lemma_path_clear_cells(b: Board, x: int, y: int)
    requires
        b.wf(),
    ensures
        path_clear(b.all_bb(), x, y) == empty_between(b.cells(), x, y),
{
    assert forall|u: int| 0 <= u < 64 implies (bit(b.all_bb(), u as u64) <==> b.cells()[u] is Some) by {
        assert(bit(b.all_bb(), u as u64) <==> b.cells()[(u as u64) as int] is Some);
    }
}

} // verus!
