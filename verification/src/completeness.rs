use vstd::prelude::*;
use crate::attacks::between_spec;
use crate::bits::{bit, lemma_bit_ops, lemma_bit_or_single, lemma_pop_lsb};
use crate::board::{Board, Cell};
use crate::board_state::{cells_after_move, holds, kind, state_after_move};
use crate::square::Sq64;
use crate::generate::{
    gen_ok, block_mask, checkers_bb, gen_move, lemma_block_mask, lemma_checkers_bits, lemma_pin_mask_bits, pin_mask,
    the_pinner,
};
use crate::geometry::{pawn_dir, pawn_rel, rook_line, king_rel, path_clear, lemma_between_symmetric, lemma_between_steps, lemma_sq_decompose, lemma_step_between};
use crate::legality::{
    is_slider, law_generated_move_legal, lemma_king_square, lemma_legal_ready, lemma_no_between_checker,
    lemma_sole_king_square,
};
use crate::moves::{Move, MoveFlag};
use crate::movegen::{
    ep_discovery_ok, ep_move_ok, fwd, pawn_move_ok, castle_move_ok, attacked_occ, king_step_ok, occ_without_king, is_checker, king_sq_of, lemma_king_sq_of, lemma_symmetric_between, pin_line, pinned, pinner, plain_move_ok,
};
use crate::piece::{Color, Piece};
use crate::position::{
    attacked_by, attacks_sq, empty_between, king_square, legal_position, piece_attacks, sole_king,
};
use crate::state_info::{castle_offset, StateInfo};

verus! {

/// Knights, bishops, rooks and queens: the pieces that move as they attack.
pub open spec fn is_officer(p: Piece) -> bool {
    p == Piece::Knight || is_slider(p)
}

/// A move of a knight, bishop, rook or queen of colour `c` by its rule: onto an empty
/// square it attacks, or capturing an enemy piece it attacks.
pub open spec fn officer_move(cells: Seq<Cell>, c: Color, m: Move) -> bool {
    let f = m.from_sq().0 as int;
    &&& holds(cells[f], c)
    &&& is_officer(kind(cells[f]))
    &&& plain_move_ok(cells, c, f, m)
    &&& attacks_sq(cells, f, m.to_sq().0 as int)
}

/// After `m` the king of colour `c`, which `m` does not move, is not attacked.
pub open spec fn leaves_king_safe(cells: Seq<Cell>, c: Color, m: Move) -> bool {
    !attacked_by(cells_after_move(cells, c, m), king_square(cells, c), c.opposite())
}

/// A piece that attacks `k` along squares empty but for `f` still attacks it once a
/// piece has left `f` for a square `t` off the line between them, and `x` (for en
/// passant, the captured pawn's square; else `f` again) has been emptied.
proof fn lemma_still_attacks(cells: Seq<Cell>, cells2: Seq<Cell>, k: int, f: int, t: int, x: int, a: int)
    requires
        cells.len() == 64,
        cells2.len() == 64,
        0 <= k < 64,
        0 <= a < 64,
        0 <= f < 64,
        0 <= t < 64,
        a != f,
        a != t,
        a != x,
        cells[a] is Some,
        cells2[f] is None,
        cells2[x] is None,
        forall|u: int| 0 <= u < 64 && u != f && u != t && u != x ==> cells2[u] == cells[u],
        piece_attacks(kind(cells[a]), cells[a].unwrap().0, a, k, true),
        forall|u: int| 0 <= u < 64 && #[trigger] between_spec(a, k, u) && u != f && u != x ==> cells[u] is None,
        !between_spec(a, k, t),
    ensures
        attacks_sq(cells2, a, k),
{
    assert(cells2[a] == cells[a]);
    assert(empty_between(cells2, a, k)) by {
        assert forall|u: int| 0 <= u < 64 && #[trigger] between_spec(a, k, u) implies cells2[u] is None by {
            if u != f && u != x {
                assert(u != t);
            }
        }
    }
}

/// Two squares that both lie between `k` and `a1`, and between `k` and `a2`, put one of
/// `a1`, `a2` between `k` and the other.
proof fn lemma_shared_between(k: int, a1: int, a2: int, t: int)
    requires
        0 <= k < 64,
        0 <= a1 < 64,
        0 <= a2 < 64,
        a1 != a2,
        between_spec(k, a1, t),
        between_spec(k, a2, t),
    ensures
        between_spec(k, a2, a1) || between_spec(k, a1, a2),
{
    let j1 = lemma_between_steps(k, a1, t);
    let j2 = lemma_between_steps(k, a2, t);
    lemma_sq_decompose(k);
    lemma_sq_decompose(a1);
    lemma_sq_decompose(a2);
    lemma_sq_decompose(t);
    let n1 = crate::geometry::dist(k, a1);
    let n2 = crate::geometry::dist(k, a2);
    let sr1 = crate::attacks::sign(a1 / 8 - k / 8);
    let sf1 = crate::attacks::sign(a1 % 8 - k % 8);
    let sr2 = crate::attacks::sign(a2 / 8 - k / 8);
    let sf2 = crate::attacks::sign(a2 % 8 - k % 8);
    assert(sr1 == sr2 && sf1 == sf2 && j1 == j2);
    if n1 < n2 {
        lemma_step_between(k, a2, n1);
        assert(a1 == 8 * (k / 8 + crate::attacks::lin(sr2, n1)) + k % 8 + crate::attacks::lin(sf2, n1));
    } else {
        assert(n1 != n2);
        lemma_step_between(k, a1, n2);
        assert(a2 == 8 * (k / 8 + crate::attacks::lin(sr1, n2)) + k % 8 + crate::attacks::lin(sf1, n2));
    }
}

/// A move of one piece of colour `c` from `f` to another square `t`, empty or holding an
/// enemy piece, that changes no other square: every move but castling and en passant.
pub open spec fn simple_move(cells: Seq<Cell>, c: Color, m: Move) -> bool {
    let f = m.from_sq().0 as int;
    let t = m.to_sq().0 as int;
    &&& holds(cells[f], c)
    &&& f != t
    &&& m.has_valid_flag()
    &&& m.flag() != MoveFlag::EnPassant
    &&& m.flag() != MoveFlag::CastleKingside
    &&& m.flag() != MoveFlag::CastleQueenside
    &&& (cells[t] is None || holds(cells[t], c.opposite()))
}

/// The squares after a simple move from `f` to `t`.
proof fn lemma_simple_cells(cells: Seq<Cell>, c: Color, m: Move)
    requires
        cells.len() == 64,
        simple_move(cells, c, m),
    ensures
        ({
            let f = m.from_sq().0 as int;
            let t = m.to_sq().0 as int;
            let cells2 = cells_after_move(cells, c, m);
            &&& 0 <= f < 64
            &&& 0 <= t < 64
            &&& cells2.len() == 64
            &&& cells2[f] is None
            &&& holds(cells2[t], c)
            &&& forall|u: int| 0 <= u < 64 && u != f && u != t ==> cells2[u] == cells[u]
        }),
{
    crate::moves::lemma_move_squares(m);
}

/// A checker that the move neither captures nor blocks still gives check after it.
proof fn lemma_checker_stays(cells: Seq<Cell>, c: Color, k: int, m: Move, a: int)
    requires
        cells.len() == 64,
        simple_move(cells, c, m),
        0 <= k < 64,
        0 <= a < 64,
        is_checker(cells, c, k, a),
        !(between_spec(k, a, m.to_sq().0 as int) || m.to_sq().0 as int == a),
    ensures
        attacked_by(cells_after_move(cells, c, m), k, c.opposite()),
{
    let f = m.from_sq().0 as int;
    let t = m.to_sq().0 as int;
    let cells2 = cells_after_move(cells, c, m);
    lemma_simple_cells(cells, c, m);
    lemma_between_symmetric(k, a, t);
    assert forall|u: int| 0 <= u < 64 && #[trigger] between_spec(a, k, u) && u != f implies cells[u] is None by {
        lemma_no_between_checker(cells, c, k, a, u);
    }
    lemma_still_attacks(cells, cells2, k, f, t, f, a);
    assert(holds(cells2[a], c.opposite()));
}

/// A pinned piece that leaves the line to its pinner uncovers its king.
proof fn lemma_pin_kept(cells: Seq<Cell>, c: Color, k: int, m: Move)
    requires
        cells.len() == 64,
        simple_move(cells, c, m),
        0 <= k < 64,
        !attacked_by(cells_after_move(cells, c, m), k, c.opposite()),
    ensures
        bit(pin_mask(cells, c, k, m.from_sq().0 as int), m.to_sq().0 as u64),
{
    let f = m.from_sq().0 as int;
    let t = m.to_sq().0 as int;
    let cells2 = cells_after_move(cells, c, m);
    lemma_simple_cells(cells, c, m);
    lemma_pin_mask_bits(cells, c, k, f);
    if pinned(cells, c, k, f) {
        let p = the_pinner(cells, c, k, f);
        assert(pinner(cells, c, k, p, f));
        if !pin_line(k, p, t) {
            lemma_symmetric_between(k, p);
            assert forall|u: int| 0 <= u < 64 && #[trigger] between_spec(p, k, u) && u != f implies cells[u] is None by {
                assert(between_spec(k, p, u));
            }
            lemma_still_attacks(cells, cells2, k, f, t, f, p);
            assert(holds(cells2[p], c.opposite()));
            assert(attacked_by(cells2, k, c.opposite()));
        }
    }
}

/// A simple move that leaves the king of the side to move unattacked keeps to the line
/// of a pin; against one checker it captures it or blocks; and there is none against
/// two checkers.
proof fn lemma_simple_masks(b: Board, si: StateInfo, m: Move)
    requires
        b.wf(),
        legal_position(b.cells(), si),
        simple_move(b.cells(), si.active_color, m),
        kind(b.cells()[m.from_sq().0 as int]) != Piece::King,
        leaves_king_safe(b.cells(), si.active_color, m),
    ensures
        ({
            let c = si.active_color;
            let k = king_sq_of(b, c);
            let ch = checkers_bb(b, c);
            let t = m.to_sq().0 as u64;
            let pm = pin_mask(b.cells(), c, k, m.from_sq().0 as int);
            &&& ch == 0 ==> bit(0xFFFF_FFFF_FFFF_FFFFu64 & pm, t)
            &&& ch != 0 && ch & ((ch - 1) as u64) == 0 ==> bit(
                block_mask(b, c, vstd::std_specs::bits::u64_trailing_zeros(ch) as int) & pm,
                t,
            )
            &&& ch == 0 || ch & ((ch - 1) as u64) == 0
        }),
{
    let cells = b.cells();
    let c = si.active_color;
    let f = m.from_sq().0 as int;
    let t = m.to_sq().0 as int;
    lemma_legal_ready(b, si);
    lemma_king_square(cells, c);
    lemma_king_sq_of(b, c);
    let k = king_sq_of(b, c);
    assert(k == king_square(cells, c));
    lemma_simple_cells(cells, c, m);
    lemma_pin_kept(cells, c, k, m);
    let pm = pin_mask(cells, c, k, f);
    let ch = checkers_bb(b, c);
    lemma_checkers_bits(b, c);
    if ch == 0 {
        let all = 0xFFFF_FFFF_FFFF_FFFFu64;
        lemma_bit_ops(0u64, 0u64, t as u64);
        lemma_bit_ops(all, pm, t as u64);
        assert(bit(all, t as u64));
    } else if ch & ((ch - 1) as u64) == 0 {
        lemma_pop_lsb(ch);
        let a = vstd::std_specs::bits::u64_trailing_zeros(ch) as int;
        assert(is_checker(cells, c, k, a));
        lemma_block_mask(b, c, a);
        if !(between_spec(k, a, t) || t == a) {
            lemma_checker_stays(cells, c, k, m, a);
        }
        lemma_bit_ops(block_mask(b, c, a), pm, t as u64);
    } else {
        lemma_pop_lsb(ch);
        let rest = ch & ((ch - 1) as u64);
        lemma_pop_lsb(rest);
        let a1 = vstd::std_specs::bits::u64_trailing_zeros(ch) as int;
        let a2 = vstd::std_specs::bits::u64_trailing_zeros(rest) as int;
        assert(bit(ch, a2 as u64) && a2 != a1);
        assert(is_checker(cells, c, k, a1));
        assert(is_checker(cells, c, k, a2));
        if !(between_spec(k, a1, t) || t == a1) {
            lemma_checker_stays(cells, c, k, m, a1);
        }
        if !(between_spec(k, a2, t) || t == a2) {
            lemma_checker_stays(cells, c, k, m, a2);
        }
        lemma_between_symmetric(k, a2, a1);
        lemma_between_symmetric(k, a1, a2);
        if between_spec(k, a1, t) && between_spec(k, a2, t) {
            lemma_shared_between(k, a1, a2, t);
        }
        if between_spec(k, a2, a1) {
            lemma_no_between_checker(cells, c, k, a2, a1);
        }
        if between_spec(k, a1, a2) {
            lemma_no_between_checker(cells, c, k, a1, a2);
        }
    }
}

/// Law: in a legal position, every move of a knight, bishop, rook or queen of the side to
/// move by its rule that leaves its king unattacked is one that `generate_moves`
/// produces.
pub proof fn law_officer_moves_generated(b: Board, si: StateInfo, m: Move)
    requires
        b.wf(),
        legal_position(b.cells(), si),
        officer_move(b.cells(), si.active_color, m),
        leaves_king_safe(b.cells(), si.active_color, m),
    ensures
        gen_move(b, si, false, m),
{
    crate::moves::lemma_move_squares(m);
    lemma_simple_masks(b, si, m);
}

/// A step of the king of colour `c` to a neighbouring square, empty or holding an enemy
/// piece.
pub open spec fn king_step(cells: Seq<Cell>, c: Color, m: Move) -> bool {
    let f = m.from_sq().0 as int;
    &&& holds(cells[f], c)
    &&& kind(cells[f]) == Piece::King
    &&& plain_move_ok(cells, c, f, m)
    &&& king_rel(f, m.to_sq().0 as int)
}

/// After `m` the square it moves to is not attacked by the enemy of colour `c`.
pub open spec fn lands_safe(cells: Seq<Cell>, c: Color, m: Move) -> bool {
    !attacked_by(cells_after_move(cells, c, m), m.to_sq().0 as int, c.opposite())
}

/// No square lies strictly between a square and itself as the far end.
proof fn lemma_not_between_end(a: int, t: int)
    requires
        0 <= a < 64,
        0 <= t < 64,
    ensures
        !between_spec(a, t, t),
{
    if between_spec(a, t, t) {
        let j = lemma_between_steps(a, t, t);
        lemma_sq_decompose(a);
        lemma_sq_decompose(t);
    }
}

/// Law: in a legal position, every step of the king of the side to move onto a square
/// that no enemy piece attacks once it stands there is one that `generate_moves`
/// produces.
pub proof fn law_king_steps_generated(b: Board, si: StateInfo, m: Move)
    requires
        b.wf(),
        legal_position(b.cells(), si),
        king_step(b.cells(), si.active_color, m),
        lands_safe(b.cells(), si.active_color, m),
    ensures
        gen_move(b, si, false, m),
{
    let cells = b.cells();
    let c = si.active_color;
    let co = c.opposite();
    let f = m.from_sq().0 as int;
    let t = m.to_sq().0 as int;
    let cells2 = cells_after_move(cells, c, m);
    crate::moves::lemma_move_squares(m);
    lemma_legal_ready(b, si);
    lemma_king_square(cells, c);
    lemma_king_sq_of(b, c);
    let k = king_sq_of(b, c);
    assert(k == f);
    let occ = occ_without_king(b, c);
    if attacked_occ(cells, occ, t, co) {
        let a = choose|a: int|
            0 <= a < 64 && holds(cells[a], co) && #[trigger] piece_attacks(kind(cells[a]), co, a, t, path_clear(occ, a, t));
        assert(a != f && a != t);
        assert(cells2[a] == cells[a]);
        lemma_not_between_end(a, t);
        if is_slider(kind(cells[a])) {
            assert forall|u: int| 0 <= u < 64 && #[trigger] between_spec(a, t, u) implies cells2[u] is None by {
                lemma_bit_ops(b.all_bb(), !b.piece_bb(c, Piece::King), u as u64);
                lemma_bit_ops(b.piece_bb(c, Piece::King), b.piece_bb(c, Piece::King), u as u64);
                assert(!bit(occ, u as u64));
                if u != f {
                    assert(cells[u] is None || cells[u] == Some((c, Piece::King)));
                }
            }
        }
        assert(attacks_sq(cells2, a, t));
        assert(attacked_by(cells2, t, co));
    }
    assert(king_step_ok(b, c, f, m));
}

/// Colour `c` still holds the right to castle on the king's side (`short`) or the
/// queen's side.
pub open spec fn holds_right(si: StateInfo, c: Color, short: bool) -> bool {
    (si.castle_rights >> castle_offset(c, short)) & 1u8 == 1u8
}

/// Castling by the rules: the right is held (in a legal position the king and that rook
/// then stand on their starting squares), the squares between king and rook are empty,
/// and the king is not in check and crosses and reaches no attacked square.
pub open spec fn castle_rule(cells: Seq<Cell>, si: StateInfo, m: Move) -> bool {
    let c = si.active_color;
    let co = c.opposite();
    let f = m.from_sq().0 as int;
    let t = m.to_sq().0 as int;
    &&& holds(cells[f], c)
    &&& kind(cells[f]) == Piece::King
    &&& m.has_valid_flag()
    &&& !attacked_by(cells, f, co)
    &&& {
        ||| m.flag() == MoveFlag::CastleKingside && holds_right(si, c, true) && t == f + 2 && cells[f + 1] is None
            && cells[f + 2] is None && !attacked_by(cells, f + 1, co) && !attacked_by(cells, f + 2, co)
        ||| m.flag() == MoveFlag::CastleQueenside && holds_right(si, c, false) && t == f - 2 && cells[f - 1] is None
            && cells[f - 2] is None && cells[f - 3] is None && !attacked_by(cells, f - 1, co) && !attacked_by(
            cells,
            f - 2,
            co,
        )
    }
}

/// On the board's own occupancy, `attacked_occ` is `attacked_by`.
proof fn lemma_attacked_occ_all(b: Board, x: int, by: Color)
    requires
        b.wf(),
    ensures
        attacked_occ(b.cells(), b.all_bb(), x, by) ==> attacked_by(b.cells(), x, by),
{
    if attacked_occ(b.cells(), b.all_bb(), x, by) {
        let a = choose|a: int|
            0 <= a < 64 && holds(b.cells()[a], by) && #[trigger] piece_attacks(
                kind(b.cells()[a]),
                by,
                a,
                x,
                path_clear(b.all_bb(), a, x),
            );
        crate::position::lemma_path_clear_cells(b, a, x);
        assert(attacks_sq(b.cells(), a, x));
    }
}

/// Law: in a legal position, every castling move allowed by the rules is one that
/// `generate_moves` produces.
pub proof fn law_castles_generated(b: Board, si: StateInfo, m: Move)
    requires
        b.wf(),
        legal_position(b.cells(), si),
        castle_rule(b.cells(), si, m),
    ensures
        gen_move(b, si, false, m),
{
    let cells = b.cells();
    let c = si.active_color;
    let co = c.opposite();
    let f = m.from_sq().0 as int;
    crate::moves::lemma_move_squares(m);
    lemma_legal_ready(b, si);
    lemma_king_square(cells, c);
    lemma_king_sq_of(b, c);
    let k = king_sq_of(b, c);
    assert(k == f);
    let ch = checkers_bb(b, c);
    lemma_checkers_bits(b, c);
    if ch != 0 {
        lemma_pop_lsb(ch);
        let a = vstd::std_specs::bits::u64_trailing_zeros(ch) as int;
        assert(is_checker(cells, c, k, a));
        assert(attacked_by(cells, f, co));
    }
    lemma_attacked_occ_all(b, f + 1, co);
    lemma_attacked_occ_all(b, f + 2, co);
    lemma_attacked_occ_all(b, f - 1, co);
    lemma_attacked_occ_all(b, f - 2, co);
    assert(castle_move_ok(b, si, c, f, m));
}

/// A pawn move of colour `c` by its rule, but en passant: a push onto an empty square, a
/// double push from the starting rank across an empty square, or a diagonal capture,
/// promoting on the last rank.
pub open spec fn pawn_rule(cells: Seq<Cell>, c: Color, m: Move) -> bool {
    let f = m.from_sq().0 as int;
    &&& holds(cells[f], c)
    &&& kind(cells[f]) == Piece::Pawn
    &&& pawn_move_ok(cells, c, f, m, 0xFFFF_FFFF_FFFF_FFFFu64)
}

/// Law: in a legal position, every pawn move of the side to move by its rule, en passant
/// aside, that leaves its king unattacked is one that `generate_moves` produces.
pub proof fn law_pawn_moves_generated(b: Board, si: StateInfo, m: Move)
    requires
        b.wf(),
        legal_position(b.cells(), si),
        pawn_rule(b.cells(), si.active_color, m),
        leaves_king_safe(b.cells(), si.active_color, m),
    ensures
        gen_move(b, si, false, m),
{
    crate::moves::lemma_move_squares(m);
    lemma_simple_masks(b, si, m);
}

/// An en passant capture by the rules: a pawn of the side to move takes diagonally onto
/// the en passant square.
pub open spec fn ep_rule(cells: Seq<Cell>, si: StateInfo, m: Move) -> bool {
    let c = si.active_color;
    let f = m.from_sq().0 as int;
    let t = m.to_sq().0 as int;
    &&& holds(cells[f], c)
    &&& kind(cells[f]) == Piece::Pawn
    &&& m.has_valid_flag()
    &&& m.flag() == MoveFlag::EnPassant
    &&& si.ep_square == Some(Sq64(t as u8))
    &&& pawn_rel(c, f, t)
}

/// The squares of an en passant capture in a legal position, and after it: the pawn
/// leaves `f` for the empty `t` and the pawn passed by, on `csq`, goes.
proof fn lemma_ep_cells(cells: Seq<Cell>, si: StateInfo, m: Move)
    requires
        legal_position(cells, si),
        ep_rule(cells, si, m),
    ensures
        ({
            let c = si.active_color;
            let f = m.from_sq().0 as int;
            let t = m.to_sq().0 as int;
            let csq = fwd(c, t, -1);
            let cells2 = cells_after_move(cells, c, m);
            &&& 0 <= f < 64 && 0 <= t < 64 && 0 <= csq < 64
            &&& f != t && f != csq && t != csq
            &&& cells[t] is None
            &&& cells[csq] == Some((c.opposite(), Piece::Pawn))
            &&& csq / 8 == f / 8
            &&& csq % 8 == t % 8
            &&& t / 8 == f / 8 + pawn_dir(c)
            &&& cells2.len() == 64
            &&& cells2[f] is None
            &&& cells2[csq] is None
            &&& cells2[t] == Some((c, Piece::Pawn))
            &&& forall|u: int| 0 <= u < 64 && u != f && u != t && u != csq ==> cells2[u] == cells[u]
        }),
{
    crate::moves::lemma_move_squares(m);
    let t = m.to_sq().0 as int;
    let f = m.from_sq().0 as int;
    assert(Sq64(t as u8).0 == t);
    lemma_sq_decompose(t);
    lemma_sq_decompose(f);
}

/// A pinned pawn taking en passant off the line to its pinner uncovers its king.
proof fn lemma_ep_pin(b: Board, si: StateInfo, m: Move)
    requires
        b.wf(),
        legal_position(b.cells(), si),
        ep_rule(b.cells(), si, m),
        leaves_king_safe(b.cells(), si.active_color, m),
    ensures
        bit(pin_mask(b.cells(), si.active_color, king_sq_of(b, si.active_color), m.from_sq().0 as int), m.to_sq().0 as u64),
{
    let cells = b.cells();
    let c = si.active_color;
    let f = m.from_sq().0 as int;
    let t = m.to_sq().0 as int;
    let csq = fwd(c, t, -1);
    let cells2 = cells_after_move(cells, c, m);
    lemma_ep_cells(cells, si, m);
    lemma_legal_ready(b, si);
    lemma_king_square(cells, c);
    lemma_king_sq_of(b, c);
    let k = king_sq_of(b, c);
    lemma_pin_mask_bits(cells, c, k, f);
    if pinned(cells, c, k, f) {
        let p = the_pinner(cells, c, k, f);
        assert(pinner(cells, c, k, p, f));
        if !pin_line(k, p, t) {
            lemma_symmetric_between(k, p);
            assert forall|u: int| 0 <= u < 64 && #[trigger] between_spec(p, k, u) && u != f && u != csq implies cells[u] is None by {
                assert(between_spec(k, p, u));
            }
            lemma_still_attacks(cells, cells2, k, f, t, csq, p);
            assert(holds(cells2[p], c.opposite()));
            assert(attacked_by(cells2, k, c.opposite()));
        }
    }
}

/// An en passant capture that leaves the king unattacked opens no rank or file to it
/// from an enemy rook or queen through the two pawns' squares.
proof fn lemma_ep_discovery(b: Board, si: StateInfo, m: Move)
    requires
        b.wf(),
        legal_position(b.cells(), si),
        ep_rule(b.cells(), si, m),
        leaves_king_safe(b.cells(), si.active_color, m),
    ensures
        ep_discovery_ok(b, si.active_color, m.from_sq().0 as int, fwd(si.active_color, m.to_sq().0 as int, -1)),
{
    let cells = b.cells();
    let c = si.active_color;
    let co = c.opposite();
    let f = m.from_sq().0 as int;
    let t = m.to_sq().0 as int;
    let csq = fwd(c, t, -1);
    let cells2 = cells_after_move(cells, c, m);
    lemma_ep_cells(cells, si, m);
    lemma_legal_ready(b, si);
    lemma_king_square(cells, c);
    lemma_king_sq_of(b, c);
    let k = king_sq_of(b, c);
    let occ = b.all_bb() & !((1u64 << (f as u64)) | (1u64 << (csq as u64)));
    if k / 8 == f / 8 {
        assert forall|a: int|
            0 <= a < 64 && (cells[a] == Some((co, Piece::Rook)) || cells[a] == Some((co, Piece::Queen))) implies !(
        #[trigger] rook_line(k, a) && path_clear(occ, k, a)) by {
            if rook_line(k, a) && path_clear(occ, k, a) {
                lemma_symmetric_between(k, a);
                assert forall|u: int| 0 <= u < 64 && #[trigger] between_spec(a, k, u) && u != f && u != csq implies cells[u] is None by {
                    assert(between_spec(k, a, u));
                    assert(!bit(occ, u as u64));
                    lemma_bit_ops(b.all_bb(), !((1u64 << (f as u64)) | (1u64 << (csq as u64))), u as u64);
                    lemma_bit_ops((1u64 << (f as u64)) | (1u64 << (csq as u64)), 0u64, u as u64);
                    lemma_bit_ops(1u64 << (f as u64), 1u64 << (csq as u64), u as u64);
                    lemma_bit_or_single(0u64, f as u64, u as u64);
                    lemma_bit_or_single(0u64, csq as u64, u as u64);
                }
                if between_spec(k, a, t) {
                    let j = lemma_between_steps(k, a, t);
                    lemma_sq_decompose(k);
                    lemma_sq_decompose(a);
                    lemma_sq_decompose(csq);
                    assert(k == csq);
                }
                lemma_still_attacks(cells, cells2, k, f, t, csq, a);
                assert(holds(cells2[a], co));
                assert(attacked_by(cells2, k, co));
            }
        }
    }
}

/// A checker that en passant neither captures nor blocks still gives check after it.
proof fn lemma_ep_checker_stays(b: Board, si: StateInfo, m: Move, a: int)
    requires
        b.wf(),
        legal_position(b.cells(), si),
        ep_rule(b.cells(), si, m),
        0 <= a < 64,
        is_checker(b.cells(), si.active_color, king_sq_of(b, si.active_color), a),
        a != fwd(si.active_color, m.to_sq().0 as int, -1),
        !between_spec(king_sq_of(b, si.active_color), a, m.to_sq().0 as int),
    ensures
        attacked_by(cells_after_move(b.cells(), si.active_color, m), king_sq_of(b, si.active_color), si.active_color.opposite()),
{
    let cells = b.cells();
    let c = si.active_color;
    let f = m.from_sq().0 as int;
    let t = m.to_sq().0 as int;
    let csq = fwd(c, t, -1);
    let cells2 = cells_after_move(cells, c, m);
    lemma_ep_cells(cells, si, m);
    lemma_legal_ready(b, si);
    lemma_king_sq_of(b, c);
    let k = king_sq_of(b, c);
    lemma_between_symmetric(k, a, t);
    assert forall|u: int| 0 <= u < 64 && #[trigger] between_spec(a, k, u) && u != f && u != csq implies cells[u] is None by {
        lemma_no_between_checker(cells, c, k, a, u);
    }
    lemma_still_attacks(cells, cells2, k, f, t, csq, a);
    assert(holds(cells2[a], c.opposite()));
}

/// The en passant square is on no line from the king that the passed pawn checks.
proof fn lemma_ep_no_line(c: Color, k: int, f: int, t: int, csq: int, a: int)
    requires
        0 <= k < 64,
        0 <= a < 64,
        0 <= t < 64,
        0 <= f < 64,
        0 <= csq < 64,
        pawn_rel(c.opposite(), csq, k),
        csq / 8 == f / 8,
        csq % 8 == t % 8,
        t / 8 == f / 8 + pawn_dir(c),
    ensures
        !between_spec(k, a, t),
{
    if between_spec(k, a, t) {
        let j = lemma_between_steps(k, a, t);
    }
    lemma_sq_decompose(k);
    lemma_sq_decompose(t);
    lemma_sq_decompose(csq);
}

/// A pawn pinned with the en passant square on its pin line cannot stand beside a pawn
/// that checks its king.
proof fn lemma_ep_pin_line(c: Color, k: int, p: int, f: int, t: int, csq: int)
    requires
        0 <= k < 64,
        0 <= p < 64,
        0 <= t < 64,
        0 <= f < 64,
        0 <= csq < 64,
        pawn_rel(c.opposite(), csq, k),
        pawn_rel(c, f, t),
        csq / 8 == f / 8,
        csq % 8 == t % 8,
        t / 8 == f / 8 + pawn_dir(c),
    ensures
        !(between_spec(k, p, f) && between_spec(k, p, t)),
{
    if between_spec(k, p, f) && between_spec(k, p, t) {
        let j1 = lemma_between_steps(k, p, f);
        let j2 = lemma_between_steps(k, p, t);
    }
    lemma_sq_decompose(k);
    lemma_sq_decompose(t);
    lemma_sq_decompose(f);
    lemma_sq_decompose(csq);
}

/// Law: in a legal position, every en passant capture by the rules that leaves the king
/// of the side to move unattacked is one that `generate_moves` produces.
pub proof fn law_en_passant_generated(b: Board, si: StateInfo, m: Move)
    requires
        b.wf(),
        legal_position(b.cells(), si),
        ep_rule(b.cells(), si, m),
        leaves_king_safe(b.cells(), si.active_color, m),
    ensures
        gen_move(b, si, false, m),
{
    let cells = b.cells();
    let c = si.active_color;
    let co = c.opposite();
    let f = m.from_sq().0 as int;
    let t = m.to_sq().0 as int;
    let csq = fwd(c, t, -1);
    let cells2 = cells_after_move(cells, c, m);
    crate::moves::lemma_move_squares(m);
    lemma_ep_cells(cells, si, m);
    lemma_legal_ready(b, si);
    lemma_king_square(cells, c);
    lemma_king_sq_of(b, c);
    let k = king_sq_of(b, c);
    assert(k == king_square(cells, c));
    lemma_ep_pin(b, si, m);
    lemma_ep_discovery(b, si, m);
    let pm = pin_mask(cells, c, k, f);
    let ch = checkers_bb(b, c);
    lemma_checkers_bits(b, c);
    if ch == 0 {
        let all = 0xFFFF_FFFF_FFFF_FFFFu64;
        lemma_bit_ops(0u64, 0u64, t as u64);
        lemma_bit_ops(all, pm, t as u64);
        assert(bit(all, t as u64));
        assert(ep_move_ok(b, si, c, f, m, all & pm));
    } else if ch & ((ch - 1) as u64) == 0 {
        lemma_pop_lsb(ch);
        let a = vstd::std_specs::bits::u64_trailing_zeros(ch) as int;
        assert(is_checker(cells, c, k, a));
        lemma_block_mask(b, c, a);
        let dest = block_mask(b, c, a) & pm;
        lemma_bit_ops(block_mask(b, c, a), pm, t as u64);
        lemma_bit_ops(block_mask(b, c, a), pm, csq as u64);
        if !between_spec(k, a, t) {
            if a != csq {
                lemma_ep_checker_stays(b, si, m, a);
            }
            assert(a == csq);
            assert(pawn_rel(co, csq, k));
            lemma_pin_mask_bits(cells, c, k, f);
            if pinned(cells, c, k, f) {
                let p = the_pinner(cells, c, k, f);
                assert(pinner(cells, c, k, p, f));
                assert(pin_line(k, p, t));
                lemma_ep_pin_line(c, k, p, f, t, csq);
            }
            assert(!bit(dest, t as u64) && bit(dest, csq as u64));
        }
        assert(ep_move_ok(b, si, c, f, m, dest));
    } else {
        lemma_pop_lsb(ch);
        let rest = ch & ((ch - 1) as u64);
        lemma_pop_lsb(rest);
        let a1 = vstd::std_specs::bits::u64_trailing_zeros(ch) as int;
        let a2 = vstd::std_specs::bits::u64_trailing_zeros(rest) as int;
        assert(bit(ch, a2 as u64) && a2 != a1);
        assert(is_checker(cells, c, k, a1));
        assert(is_checker(cells, c, k, a2));
        if a1 != csq && !between_spec(k, a1, t) {
            lemma_ep_checker_stays(b, si, m, a1);
        }
        if a2 != csq && !between_spec(k, a2, t) {
            lemma_ep_checker_stays(b, si, m, a2);
        }
        if a1 == csq {
            lemma_ep_no_line(c, k, f, t, csq, a2);
        } else if a2 == csq {
            lemma_ep_no_line(c, k, f, t, csq, a1);
        } else {
            lemma_shared_between(k, a1, a2, t);
            lemma_between_symmetric(k, a2, a1);
            lemma_between_symmetric(k, a1, a2);
            if between_spec(k, a2, a1) {
                lemma_no_between_checker(cells, c, k, a2, a1);
            }
            if between_spec(k, a1, a2) {
                lemma_no_between_checker(cells, c, k, a1, a2);
            }
        }
    }
}

/// A move by the rules of chess, before the question of check: a knight, bishop, rook
/// or queen move, a king step, castling, a pawn move or an en passant capture.
pub open spec fn rule_move(cells: Seq<Cell>, si: StateInfo, m: Move) -> bool {
    let c = si.active_color;
    ||| officer_move(cells, c, m)
    ||| king_step(cells, c, m)
    ||| castle_rule(cells, si, m)
    ||| pawn_rule(cells, c, m)
    ||| ep_rule(cells, si, m)
}

/// A legal move: a move by the rules after which the mover's king is not attacked.
pub open spec fn legal_move(cells: Seq<Cell>, si: StateInfo, m: Move) -> bool {
    let c = si.active_color;
    let cells2 = cells_after_move(cells, c, m);
    &&& rule_move(cells, si, m)
    &&& !attacked_by(cells2, king_square(cells2, c), c.opposite())
}

/// With the board's own occupancy, `attacked_occ` and `attacked_by` agree.
proof fn lemma_attacked_by_occ(b: Board, x: int, by: Color)
    requires
        b.wf(),
    ensures
        attacked_by(b.cells(), x, by) ==> attacked_occ(b.cells(), b.all_bb(), x, by),
{
    if attacked_by(b.cells(), x, by) {
        let a = choose|a: int| 0 <= a < 64 && holds(b.cells()[a], by) && #[trigger] attacks_sq(b.cells(), a, x);
        crate::position::lemma_path_clear_cells(b, a, x);
        assert(piece_attacks(kind(b.cells()[a]), by, a, x, path_clear(b.all_bb(), a, x)));
    }
}

/// Law: in a legal position the moves that `generate_moves` produces are exactly the
/// legal moves: the moves by the rules of chess after which the mover's king is not
/// attacked.
pub proof fn law_generation_exact(b: Board, si: StateInfo, m: Move)
    requires
        b.wf(),
        legal_position(b.cells(), si),
    ensures
        gen_move(b, si, false, m) <==> legal_move(b.cells(), si, m),
{
    let cells = b.cells();
    let c = si.active_color;
    let co = c.opposite();
    let f = m.from_sq().0 as int;
    let t = m.to_sq().0 as int;
    let cells2 = cells_after_move(cells, c, m);
    crate::moves::lemma_move_squares(m);
    lemma_legal_ready(b, si);
    lemma_king_square(cells, c);
    lemma_king_square(cells, co);
    lemma_king_sq_of(b, c);
    let k = king_sq_of(b, c);
    assert(k == king_square(cells, c));
    if legal_move(cells, si, m) {
        let kk = king_square(cells2, c);
        if officer_move(cells, c, m) || pawn_rule(cells, c, m) || ep_rule(cells, si, m) {
            if ep_rule(cells, si, m) {
                lemma_ep_cells(cells, si, m);
            } else {
                lemma_simple_cells(cells, c, m);
            }
            assert(sole_king(cells2, c, k)) by {
                assert forall|s: int| 0 <= s < 64 && #[trigger] cells2[s] == Some((c, Piece::King)) implies s == k by {
                    if s == t {
                        assert(kind(cells[f]) != Piece::King);
                        assert(m.flag().spec_is_promotion() ==> m.flag().spec_promoted_piece() != Piece::King);
                    }
                }
            }
            lemma_sole_king_square(cells2, c, k);
            if officer_move(cells, c, m) {
                law_officer_moves_generated(b, si, m);
            } else if pawn_rule(cells, c, m) {
                law_pawn_moves_generated(b, si, m);
            } else {
                law_en_passant_generated(b, si, m);
            }
        } else if king_step(cells, c, m) {
            assert(sole_king(cells2, c, t));
            lemma_sole_king_square(cells2, c, t);
            law_king_steps_generated(b, si, m);
        } else {
            law_castles_generated(b, si, m);
        }
    }
    if gen_move(b, si, false, m) {
        law_generated_move_legal(b, si, false, m);
        let ch = checkers_bb(b, c);
        lemma_checkers_bits(b, c);
        lemma_bit_ops(0u64, 0u64, t as u64);
        if ch == 0 && kind(cells[f]) == Piece::King && !king_step_ok(b, c, f, m) {
            if attacked_by(cells, f, co) {
                let a = choose|a: int| 0 <= a < 64 && holds(cells[a], co) && #[trigger] attacks_sq(cells, a, f);
                if kind(cells[a]) == Piece::King {
                    assert(attacks_sq(cells, f, a));
                    assert(a == king_square(cells, co));
                } else {
                    assert(is_checker(cells, c, k, a));
                    lemma_bit_ops(0u64, 0u64, a as u64);
                    assert(bit(ch, a as u64));
                }
            }
            assert(!attacked_by(cells, f, co));
            assert(castle_move_ok(b, si, c, f, m));
            lemma_attacked_by_occ(b, f + 1, co);
            lemma_attacked_by_occ(b, f + 2, co);
            lemma_attacked_by_occ(b, f - 1, co);
            lemma_attacked_by_occ(b, f - 2, co);
            assert(castle_rule(cells, si, m));
        }
        assert(rule_move(cells, si, m));
    }
}

/// Law: in a legal position the set of moves that perft counts (`legal_moves`) is the
/// set of legal moves.
pub proof fn law_legal_moves_set(b: Board, si: StateInfo)
    requires
        b.wf(),
        legal_position(b.cells(), si),
    ensures
        crate::perft::legal_moves(b, si) == Set::new(|m: Move| legal_move(b.cells(), si, m)),
{
    assert forall|m: Move| crate::perft::legal_moves(b, si).contains(m) == legal_move(b.cells(), si, m) by {
        law_generation_exact(b, si, m);
    }
    assert(crate::perft::legal_moves(b, si) =~= Set::new(|m: Move| legal_move(b.cells(), si, m)));
}

} // verus!
