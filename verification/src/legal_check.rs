use vstd::prelude::*;
use crate::bits::{bit, lemma_bit_ext, lemma_bit_ops, lemma_pop_lsb};
use crate::board::Board;
use crate::board_state::{holds, kind, BoardState};
use crate::movegen::{attacked_occ, compute_checkers, is_attacked, is_checker, king_sq_of, lemma_king_sq_of};
use crate::piece::{Color, Piece};
use crate::position::{
    attacked_by, attacks_sq, castle_ok, ep_ok, ep_opened, ep_shields_nothing, king_square, legal_position,
    lemma_path_clear_cells, one_king, pawns_inside, sole_king,
};
use crate::square::Sq64;

verus! {

/// With the true occupancy, the attacks `is_attacked` looks for are the attacks over
/// empty squares.
pub proof fn lemma_attacked_full(b: Board, t: int, by: Color)
    requires
        b.wf(),
        0 <= t < 64,
    ensures
        attacked_occ(b.cells(), b.all_bb(), t, by) == attacked_by(b.cells(), t, by),
{
    let cells = b.cells();
    if attacked_occ(cells, b.all_bb(), t, by) {
        let a = choose|a: int|
            0 <= a < 64 && holds(cells[a], by) && #[trigger] crate::position::piece_attacks(
                kind(cells[a]),
                by,
                a,
                t,
                crate::geometry::path_clear(b.all_bb(), a, t),
            );
        lemma_path_clear_cells(b, a, t);
        assert(attacks_sq(cells, a, t));
    }
    if attacked_by(cells, t, by) {
        let a = choose|a: int| 0 <= a < 64 && holds(cells[a], by) && #[trigger] attacks_sq(cells, a, t);
        lemma_path_clear_cells(b, a, t);
        assert(crate::position::piece_attacks(kind(cells[a]), by, a, t, crate::geometry::path_clear(b.all_bb(), a, t)));
    }
}

/// A colour has one king exactly when its king bitboard has a single square.
proof fn lemma_one_king_bits(b: Board, c: Color)
    requires
        b.wf(),
    ensures
        one_king(b.cells(), c) == (b.piece_bb(c, Piece::King) != 0 && b.piece_bb(c, Piece::King) & ((
        b.piece_bb(c, Piece::King) - 1) as u64) == 0),
        one_king(b.cells(), c) ==> king_square(b.cells(), c) == king_sq_of(b, c),
{
    let cells = b.cells();
    let kb = b.piece_bb(c, Piece::King);
    if kb != 0 {
        lemma_pop_lsb(kb);
        let tz = vstd::std_specs::bits::u64_trailing_zeros(kb) as u64;
        if kb & ((kb - 1) as u64) == 0 {
            assert forall|s: int| 0 <= s < 64 && #[trigger] cells[s] == Some((c, Piece::King)) implies s == tz by {
                assert(bit(kb, s as u64));
                lemma_bit_ops(0u64, 0u64, s as u64);
            }
            assert(sole_king(cells, c, tz as int));
        }
        if one_king(cells, c) {
            let k = choose|k: int| sole_king(cells, c, k);
            assert(cells[tz as int] == Some((c, Piece::King)));
            assert(tz == k);
            assert forall|i: u64| i < 64 implies #[trigger] bit(kb & ((kb - 1) as u64), i) == bit(0u64, i) by {
                lemma_bit_ops(0u64, 0u64, i);
                if bit(kb, i) {
                    assert(cells[i as int] == Some((c, Piece::King)));
                }
            }
            lemma_bit_ext(kb & ((kb - 1) as u64), 0u64);
        }
    } else {
        if one_king(cells, c) {
            let k = choose|k: int| sole_king(cells, c, k);
            assert(bit(kb, k as u64));
            lemma_bit_ops(0u64, 0u64, k as u64);
        }
    }
    if one_king(cells, c) {
        lemma_king_sq_of(b, c);
        crate::legality::lemma_sole_king_square(cells, c, king_sq_of(b, c));
    }
}

/// Whether a piece of kind `p` and colour `c` stands on `sq`.
fn holds_piece(board: &Board, sq: Sq64, c: Color, p: Piece) -> (r: bool)
    requires
        board.wf(),
        sq.valid(),
    ensures
        r == (board.cells()[sq.0 as int] == Some((c, p))),
{
    sq.is_on_bb(board.get_piece_bitboard(c, p))
}

/// Whether the castling rights held fit the king and rook squares (see `castle_ok`).
fn castle_rights_fit(board: &Board, cr: u8) -> (r: bool)
    requires
        board.wf(),
    ensures
        r == castle_ok(board.cells(), cr),
{
    let wk = holds_piece(board, Sq64(4), Color::White, Piece::King);
    let bk = holds_piece(board, Sq64(60), Color::Black, Piece::King);
    let wks = cr & 8 == 0 || (wk && holds_piece(board, Sq64(7), Color::White, Piece::Rook));
    let wqs = cr & 4 == 0 || (wk && holds_piece(board, Sq64(0), Color::White, Piece::Rook));
    let bks = cr & 2 == 0 || (bk && holds_piece(board, Sq64(63), Color::Black, Piece::Rook));
    let bqs = cr & 1 == 0 || (bk && holds_piece(board, Sq64(56), Color::Black, Piece::Rook));
    wks && wqs && bks && bqs
}

/// Whether the en passant square fits the position (see `ep_ok`); the side to move has
/// one king.
fn ep_square_fits(bs: &BoardState) -> (r: bool)
    requires
        bs.board.wf(),
        bs.state_info.wf(),
        one_king(bs.board.cells(), bs.state_info.active_color),
    ensures
        r == ep_ok(bs.board.cells(), bs.state_info),
{
    let board = &bs.board;
    let c = bs.state_info.active_color;
    let ghost cells = board.cells();
    match bs.state_info.ep_square {
        None => true,
        Some(sq) => {
            if board.is_occupied(sq) {
                return false;
            }
            let e = sq.0;
            let shape = match c {
                Color::White => 40 <= e && e < 48 && holds_piece(board, Sq64(e - 8), Color::Black, Piece::Pawn)
                    && !board.is_occupied(Sq64(e + 8)),
                Color::Black => 16 <= e && e < 24 && holds_piece(board, Sq64(e + 8), Color::White, Piece::Pawn)
                    && !board.is_occupied(Sq64(e - 8)),
            };
            if !shape {
                return false;
            }
            let mut opened = *board;
            match c {
                Color::White => {
                    opened.remove_piece(Sq64(e - 8), Color::Black, Piece::Pawn);
                    opened.place_piece(Sq64(e), Color::White, Piece::Pawn);
                },
                Color::Black => {
                    opened.remove_piece(Sq64(e + 8), Color::White, Piece::Pawn);
                    opened.place_piece(Sq64(e), Color::Black, Piece::Pawn);
                },
            }
            proof {
                assert(opened.cells() =~= ep_opened(cells, c, e as int));
                lemma_one_king_bits(*board, c);
                lemma_king_sq_of(*board, c);
                assert(opened.piece_bb(c, Piece::King) == board.piece_bb(c, Piece::King));
                let kq = king_sq_of(*board, c);
                assert(opened.cells()[kq] == Some((c, Piece::King)));
            }
            let now = compute_checkers(board, c);
            let then = compute_checkers(&opened, c);
            let fresh = then & !now;
            proof {
                let k = king_square(cells, c);
                let o = ep_opened(cells, c, e as int);
                assert(king_sq_of(opened, c) == k);
                if fresh == 0 {
                    assert forall|a: int|
                        0 <= a < 64 && holds(o[a], c.opposite()) && kind(o[a]) != Piece::King && #[trigger] attacks_sq(o, a, k)
                            implies attacks_sq(cells, a, k) by {
                        assert(is_checker(o, c, k, a));
                        assert(bit(then, a as u64));
                        lemma_bit_ops(then, !now, a as u64);
                        lemma_bit_ops(now, 0u64, a as u64);
                        assert(!bit(0u64, a as u64));
                        assert(bit(now, a as u64));
                    }
                } else {
                    crate::bits::lemma_and_nonzero(then, !now);
                    let i = choose|i: u64| i < 64 && #[trigger] bit(then & !now, i);
                    lemma_bit_ops(then, !now, i);
                    lemma_bit_ops(now, 0u64, i);
                    assert(is_checker(o, c, k, i as int));
                    assert(!is_checker(cells, c, k, i as int));
                    assert(!attacks_sq(cells, i as int, k));
                    assert(!ep_shields_nothing(cells, c, e as int));
                }
            }
            fresh == 0
        },
    }
}

/// Whether the position is legal (see `legal_position`): one king each, no pawn on the
/// first or last rank, the side that just moved not in check, castling rights that fit
/// the king and rook squares, and a consistent en passant square.
pub fn is_legal_position(bs: &BoardState) -> (r: bool)
    requires
        bs.board.wf(),
        bs.state_info.wf(),
    ensures
        r == legal_position(bs.board.cells(), bs.state_info),
{
    let board = &bs.board;
    let ghost cells = board.cells();
    let c = bs.state_info.active_color;
    proof {
        lemma_one_king_bits(*board, Color::White);
        lemma_one_king_bits(*board, Color::Black);
        board.lemma_cells_len();
    }
    let wk = board.get_piece_bitboard(Color::White, Piece::King);
    let bk = board.get_piece_bitboard(Color::Black, Piece::King);
    if wk == 0 || wk & (wk - 1) != 0 || bk == 0 || bk & (bk - 1) != 0 {
        return false;
    }
    let pawns = board.get_piece_bitboard(Color::White, Piece::Pawn) | board.get_piece_bitboard(Color::Black, Piece::Pawn);
    let edge_pawns = pawns & crate::pawn_batch::BASE_RANKS;
    proof {
        crate::bits::lemma_and_nonzero(pawns, crate::pawn_batch::BASE_RANKS);
        assert forall|s: u64| s < 64 implies #[trigger] bit(edge_pawns, s) == (cells[s as int] is Some && kind(cells[s as int]) == Piece::Pawn && (s < 8 || s >= 56)) by {
            lemma_bit_ops(pawns, crate::pawn_batch::BASE_RANKS, s);
            lemma_bit_ops(board.piece_bb(Color::White, Piece::Pawn), board.piece_bb(Color::Black, Piece::Pawn), s);
            crate::pawn_batch::lemma_masks(s);
            if cells[s as int] is Some {
                assert(cells[s as int].unwrap().0 == Color::White || cells[s as int].unwrap().0 == Color::Black);
            }
        }
        if edge_pawns != 0 {
            let s = choose|i: u64| i < 64 && #[trigger] bit(pawns & crate::pawn_batch::BASE_RANKS, i);
            assert(!pawns_inside(cells));
        } else {
            assert forall|s: int| 0 <= s < 64 && #[trigger] cells[s] is Some && kind(cells[s]) == Piece::Pawn implies 8 <= s < 56 by {
                assert(!bit(edge_pawns, s as u64));
            }
        }
    }
    if edge_pawns != 0 {
        return false;
    }
    let other_king = board.find_king(c.flip());
    let occ = board.occ();
    let exposed = is_attacked(board, other_king, c, occ);
    proof {
        lemma_king_sq_of(*board, c.opposite());
        lemma_attacked_full(*board, other_king.0 as int, c);
    }
    if exposed {
        return false;
    }
    if !castle_rights_fit(board, bs.state_info.castle_rights) {
        return false;
    }
    ep_square_fits(bs)
}

/// Whether a piece of colour `c` attacks the 0x88 square `sq_0x88`, which lies on the
/// board.
pub fn is_square_attacked_by(sq_0x88: crate::square::Sq88, c: Color, board: &Board) -> (r: bool)
    requires
        sq_0x88.is_on(),
        board.wf(),
    ensures
        r == crate::position::attacked_by(board.cells(), (8 * (sq_0x88.0 / 16) + sq_0x88.0 % 16) as int, c),
{
    proof {
        crate::square::lemma_rank_file(sq_0x88.0);
    }
    let sq = sq_0x88.to_sq64();
    proof {
        lemma_attacked_full(*board, sq.0 as int, c);
    }
    crate::movegen::is_attacked(board, sq, c, board.occ())
}

} // verus!
