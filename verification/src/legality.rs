use vstd::prelude::*;
use crate::attacks::between_spec;
use crate::bits::bit;
use crate::board::{Board, Cell};
use crate::board_state::{
    cells_after_move, ep_capture_square, holds, kind, move_shape_ok, state_after_move,
};
use crate::generate::{
    block_mask, blocks, checkers_bb, gen_move, gen_ok, gen_ready, kings_castle_ok,
    lemma_block_mask, lemma_checkers_bits, lemma_pin_mask_bits, pin_mask, the_pinner,
};
use crate::geometry::{pawn_rel, path_clear, rook_line};
use crate::bits::lemma_bit_ops;
use crate::moves::{Move, MoveFlag};
use crate::movegen::{
    ep_discovery_ok, is_checker, lemma_king_sq_of, lemma_pinner_unique, pin_line, pinned, pinner,
    castle_move_ok, ep_move_ok, ep_square_placed, fwd, king_sq_of, king_step_ok, last_rank,
    pawn_move_ok, plain_move_ok,
};
use crate::piece::{Color, Piece};
use crate::position::{
    attacked_by, attacks_sq, empty_between, piece_attacks, castle_ok, ep_ok, ep_opened, ep_shields_nothing, king_square, legal_position, one_king, pawns_inside, sole_king,
};
use crate::state_info::{castle_offset, StateInfo};

verus! {

/// In a legal position the king of colour `c` stands on `king_square`, alone.
pub proof fn lemma_king_square(cells: Seq<Cell>, c: Color)
    requires
        one_king(cells, c),
    ensures
        sole_king(cells, c, king_square(cells, c)),
{
}

/// A held castling right, read as `has_castle_rights` reads it, is one of the four bits
/// that `castle_ok` speaks of.
pub proof fn lemma_castle_bits(cr: u8)
    ensures
        ((cr >> castle_offset(Color::White, true)) & 1u8 == 1u8) == (cr & 8u8 != 0),
        ((cr >> castle_offset(Color::White, false)) & 1u8 == 1u8) == (cr & 4u8 != 0),
        ((cr >> castle_offset(Color::Black, true)) & 1u8 == 1u8) == (cr & 2u8 != 0),
        ((cr >> castle_offset(Color::Black, false)) & 1u8 == 1u8) == (cr & 1u8 != 0),
{
    assert(castle_offset(Color::White, true) == 3u8);
    assert(castle_offset(Color::White, false) == 2u8);
    assert(castle_offset(Color::Black, true) == 1u8);
    assert(castle_offset(Color::Black, false) == 0u8);
    assert((((cr >> 3u8) & 1u8 == 1u8) == (cr & 8u8 != 0)) && (((cr >> 2u8) & 1u8 == 1u8) == (cr & 4u8 != 0))
        && (((cr >> 1u8) & 1u8 == 1u8) == (cr & 2u8 != 0)) && (((cr >> 0u8) & 1u8 == 1u8) == (cr & 1u8 != 0)))
        by (bit_vector);
}

/// Move generation may run on every legal position.
pub proof fn lemma_legal_ready(b: Board, si: StateInfo)
    requires
        b.wf(),
        legal_position(b.cells(), si),
    ensures
        gen_ready(b, si),
{
    let cells = b.cells();
    let c = si.active_color;
    lemma_king_square(cells, c);
    let k = king_square(cells, c);
    assert(cells[k] == Some((c, Piece::King)));
    lemma_castle_bits(si.castle_rights);
    assert(kings_castle_ok(b, si, c)) by {
        assert forall|s: int| 0 <= s < 64 && #[trigger] cells[s] == Some((c, Piece::King)) implies crate::movegen::castle_squares_ok(si, c, s) by {
            assert(s == k);
        }
    }
}

/// In a legal position, castling rights held by colour `c` put its king on its
/// starting square and the rooks on their corners.
proof fn lemma_castle_squares(cells: Seq<Cell>, si: StateInfo, f: int)
    requires
        legal_position(cells, si),
        0 <= f < 64,
        cells[f] == Some((si.active_color, Piece::King)),
    ensures
        ({
            let c = si.active_color;
            let cr = si.castle_rights;
            &&& (cr >> castle_offset(c, true)) & 1u8 == 1u8 ==> f == (match c {
                Color::White => 4int,
                Color::Black => 60int,
            }) && cells[f + 3] == Some((c, Piece::Rook))
            &&& (cr >> castle_offset(c, false)) & 1u8 == 1u8 ==> f == (match c {
                Color::White => 4int,
                Color::Black => 60int,
            }) && cells[f - 4] == Some((c, Piece::Rook))
        }),
{
    let c = si.active_color;
    lemma_king_square(cells, c);
    lemma_castle_bits(si.castle_rights);
}

proof fn lemma_pawn_shape(cells: Seq<Cell>, c: Color, f: int, m: Move, dest: u64)
    requires
        cells.len() == 64,
        cells[f] == Some((c, Piece::Pawn)),
        pawn_move_ok(cells, c, f, m, dest),
    ensures
        move_shape_ok(cells, c, m),
{
    crate::moves::lemma_move_squares(m);
}

proof fn lemma_ep_shape(b: Board, si: StateInfo, f: int, m: Move, dest: u64)
    requires
        b.wf(),
        legal_position(b.cells(), si),
        b.cells()[f] == Some((si.active_color, Piece::Pawn)),
        ep_move_ok(b, si, si.active_color, f, m, dest),
    ensures
        move_shape_ok(b.cells(), si.active_color, m),
{
    crate::moves::lemma_move_squares(m);
    assert(ep_ok(b.cells(), si));
}

proof fn lemma_king_shape(b: Board, si: StateInfo, f: int, m: Move)
    requires
        b.wf(),
        legal_position(b.cells(), si),
        0 <= f < 64,
        b.cells()[f] == Some((si.active_color, Piece::King)),
        king_step_ok(b, si.active_color, f, m) || castle_move_ok(b, si, si.active_color, f, m),
    ensures
        move_shape_ok(b.cells(), si.active_color, m),
{
    crate::moves::lemma_move_squares(m);
    lemma_castle_squares(b.cells(), si, f);
}

/// A generated move fits the squares as `make_move` needs: it moves a piece of the side
/// to move onto squares empty or occupied as its flag says.
pub proof fn lemma_gen_shape(b: Board, si: StateInfo, only_capture: bool, m: Move)
    requires
        b.wf(),
        legal_position(b.cells(), si),
        gen_move(b, si, only_capture, m),
    ensures
        move_shape_ok(b.cells(), si.active_color, m),
{
    let cells = b.cells();
    let c = si.active_color;
    let f = m.from_sq().0 as int;
    crate::moves::lemma_move_squares(m);
    let ch = crate::generate::checkers_bb(b, c);
    let k = king_sq_of(b, c);
    if ch & ((ch - 1) as u64) != 0 && ch != 0 {
        lemma_king_square(cells, c);
        assert(b.has_piece(c, Piece::King));
        crate::movegen::lemma_king_sq_of(b, c);
        lemma_king_shape(b, si, k, m);
    } else {
        let valid = if ch == 0 {
            if only_capture { b.color_bb(c.opposite()) } else { 0xFFFF_FFFF_FFFF_FFFFu64 }
        } else {
            crate::generate::block_mask(b, c, vstd::std_specs::bits::u64_trailing_zeros(ch) as int)
        };
        let castles = ch == 0;
        assert(gen_ok(b, si, c, valid, castles, m));
        let dest = valid & pin_mask(cells, c, k, f);
        match kind(cells[f]) {
            Piece::Pawn => {
                if pawn_move_ok(cells, c, f, m, dest) {
                    lemma_pawn_shape(cells, c, f, m, dest);
                } else {
                    lemma_ep_shape(b, si, f, m, dest);
                }
            },
            Piece::King => {
                lemma_king_shape(b, si, f, m);
            },
            _ => {},
        }
    }
}

/// Bishops, rooks and queens: the pieces whose attacks depend on the squares between.
pub open spec fn is_slider(p: Piece) -> bool {
    p == Piece::Bishop || p == Piece::Rook || p == Piece::Queen
}

/// No square lies between two squares that are not on one line, or that are neighbours.
proof fn lemma_no_between_nonslider(p: Piece, c: Color, a: int, k: int, u: int, clear: bool)
    requires
        0 <= a < 64,
        0 <= k < 64,
        !is_slider(p),
        crate::position::piece_attacks(p, c, a, k, clear),
    ensures
        !between_spec(a, k, u),
{
    crate::geometry::lemma_sq_decompose(a);
    crate::geometry::lemma_sq_decompose(k);
}

/// After a move that left `f` empty, filled `t` and, for en passant, emptied `x` (all
/// other squares unchanged), a piece on `a` attacking `k` stood there before; it
/// attacked `k` before unless `f` or `x` lies between them, and the other squares
/// between them were empty before.
proof fn lemma_child_attack(cells: Seq<Cell>, cells2: Seq<Cell>, k: int, f: int, t: int, x: int, a: int)
    requires
        cells.len() == 64,
        cells2.len() == 64,
        0 <= k < 64,
        0 <= a < 64,
        0 <= t < 64,
        forall|u: int| 0 <= u < 64 && u != f && u != t && u != x ==> cells2[u] == cells[u],
        cells2[t] is Some,
        a != f,
        a != t,
        a != x,
        attacks_sq(cells2, a, k),
    ensures
        cells[a] == cells2[a],
        !between_spec(a, k, t),
        (!between_spec(a, k, f) && !between_spec(a, k, x)) ==> attacks_sq(cells, a, k),
        !is_slider(kind(cells[a])) ==> attacks_sq(cells, a, k),
        !is_slider(kind(cells[a])) ==> forall|u: int| !#[trigger] between_spec(a, k, u),
        is_slider(kind(cells[a])) ==> piece_attacks(kind(cells[a]), cells[a].unwrap().0, a, k, true),
        forall|u: int| 0 <= u < 64 && #[trigger] between_spec(a, k, u) && u != f && u != x ==> cells[u] is None,
{
    let p = kind(cells[a]);
    let co = cells[a].unwrap().0;
    if !is_slider(p) {
        assert forall|u: int| !between_spec(a, k, u) by {
            lemma_no_between_nonslider(p, co, a, k, u, crate::position::empty_between(cells2, a, k));
        }
    } else {
        assert forall|u: int| 0 <= u < 64 && #[trigger] between_spec(a, k, u) && u != f && u != x implies cells[u] is None by {
            assert(cells2[u] is None);
        }
    }
}

/// When two squares of one file, 16 apart, both lie between `a` and `k`, so does the
/// square between them.
proof fn lemma_between_file(a: int, k: int, u1: int, u2: int)
    requires
        0 <= a < 64,
        0 <= k < 64,
        between_spec(a, k, u1),
        between_spec(a, k, u2),
        u2 == u1 + 16,
    ensures
        between_spec(a, k, u1 + 8),
{
    let j1 = crate::geometry::lemma_between_steps(a, k, u1);
    let j2 = crate::geometry::lemma_between_steps(a, k, u2);
    crate::geometry::lemma_sq_decompose(u1);
    crate::geometry::lemma_sq_decompose(u2);
    let sr = crate::attacks::sign(k / 8 - a / 8);
    let sf = crate::attacks::sign(k % 8 - a % 8);
    assert(sf == 0);
    let j3 = (j1 + j2) / 2;
    assert(j2 == j1 + 2 || j1 == j2 + 2);
    crate::geometry::lemma_step_between(a, k, j3);
    crate::geometry::lemma_sq_decompose(a);
}

/// Two squares of one rank between `a` and `k` put `a` and `k` on that rank.
proof fn lemma_between_rank(a: int, k: int, u1: int, u2: int)
    requires
        0 <= a < 64,
        0 <= k < 64,
        between_spec(a, k, u1),
        between_spec(a, k, u2),
        u1 != u2,
        u1 / 8 == u2 / 8,
    ensures
        a / 8 == k / 8,
        a / 8 == u1 / 8,
{
    let j1 = crate::geometry::lemma_between_steps(a, k, u1);
    let j2 = crate::geometry::lemma_between_steps(a, k, u2);
    crate::geometry::lemma_sq_decompose(u1);
    crate::geometry::lemma_sq_decompose(u2);
    crate::geometry::lemma_sq_decompose(a);
    crate::geometry::lemma_sq_decompose(k);
}

/// A checker sees the king along empty squares: no piece stands between them.
pub proof fn lemma_no_between_checker(cells: Seq<Cell>, c: Color, k: int, a: int, u: int)
    requires
        0 <= k < 64,
        0 <= a < 64,
        0 <= u < 64,
        is_checker(cells, c, k, a),
        between_spec(a, k, u),
    ensures
        cells[u] is None,
{
    let p = kind(cells[a]);
    if !is_slider(p) {
        lemma_no_between_nonslider(p, c.opposite(), a, k, u, empty_between(cells, a, k));
    }
}

/// En passant cannot uncover a line to the king through the captured pawn alone: that
/// pawn would then keep the line closed on its own, which `ep_ok` rules out.
proof fn lemma_retro(b: Board, si: StateInfo, m: Move, a: int, x: int)
    requires
        b.wf(),
        legal_position(b.cells(), si),
        m.to_sq().0 < 64,
        si.ep_square == Some(crate::square::Sq64(m.to_sq().0)),
        x == fwd(si.active_color, m.to_sq().0 as int, -1),
        0 <= a < 64,
        holds(b.cells()[a], si.active_color.opposite()),
        a != x,
        is_slider(kind(b.cells()[a])),
        piece_attacks(
            kind(b.cells()[a]),
            si.active_color.opposite(),
            a,
            king_square(b.cells(), si.active_color),
            true,
        ),
        between_spec(a, king_square(b.cells(), si.active_color), x),
        !between_spec(a, king_square(b.cells(), si.active_color), m.to_sq().0 as int),
        forall|u: int|
            0 <= u < 64 && #[trigger] between_spec(a, king_square(b.cells(), si.active_color), u) && u
                != m.from_sq().0 as int && u != x ==> b.cells()[u] is None,
        !between_spec(a, king_square(b.cells(), si.active_color), m.from_sq().0 as int),
    ensures
        !ep_shields_nothing(b.cells(), si.active_color, m.to_sq().0 as int),
{
    let cells = b.cells();
    let c = si.active_color;
    let co = c.opposite();
    let e = m.to_sq().0 as int;
    lemma_king_square(cells, c);
    let k = king_square(cells, c);
    assert(ep_ok(cells, si));
    let op = ep_opened(cells, c, e);
    assert(si.ep_square matches Some(sq) && sq.0 == e);
    assert(cells[e] is None);
    assert(op[a] == cells[a]);
    assert forall|u: int| 0 <= u < 64 && #[trigger] between_spec(a, k, u) implies op[u] is None by {}
    assert(attacks_sq(op, a, k));
    assert(cells[x] is Some);
    assert(!attacks_sq(cells, a, k));
}

/// A move by a piece other than the king, generated in a legal position, leaves its
/// king unattacked (en passant in capture-only generation aside: there the rank through
/// both pawns is not looked at, see `ep_discovery_ok`).
#[verifier::rlimit(100)]
pub proof fn lemma_nonking_safe(b: Board, si: StateInfo, oc: bool, m: Move)
    requires
        b.wf(),
        legal_position(b.cells(), si),
        gen_move(b, si, oc, m),
        kind(b.cells()[m.from_sq().0 as int]) != Piece::King,
        oc && m.flag() == MoveFlag::EnPassant ==> ep_discovery_ok(
            b,
            si.active_color,
            m.from_sq().0 as int,
            fwd(si.active_color, m.to_sq().0 as int, -1),
        ),
    ensures
        !attacked_by(
            cells_after_move(b.cells(), si.active_color, m),
            king_sq_of(b, si.active_color),
            si.active_color.opposite(),
        ),
{
    let cells = b.cells();
    let c = si.active_color;
    let co = c.opposite();
    let f = m.from_sq().0 as int;
    let t = m.to_sq().0 as int;
    crate::moves::lemma_move_squares(m);
    lemma_king_square(cells, c);
    lemma_king_square(cells, co);
    assert(b.has_piece(c, Piece::King));
    lemma_king_sq_of(b, c);
    let k = king_sq_of(b, c);
    assert(k == king_square(cells, c));
    lemma_gen_shape(b, si, oc, m);
    let ch = checkers_bb(b, c);
    lemma_checkers_bits(b, c);
    assert(!(ch != 0 && ch & ((ch - 1) as u64) != 0));
    let a0 = vstd::std_specs::bits::u64_trailing_zeros(ch) as int;
    let valid = if ch == 0 {
        if oc { b.color_bb(co) } else { 0xFFFF_FFFF_FFFF_FFFFu64 }
    } else {
        block_mask(b, c, a0)
    };
    assert(gen_ok(b, si, c, valid, ch == 0, m));
    let pm = pin_mask(cells, c, k, f);
    let dest = valid & pm;
    lemma_pin_mask_bits(cells, c, k, f);
    lemma_block_mask(b, c, a0);
    let is_ep = m.flag() == MoveFlag::EnPassant;
    let x = if is_ep { fwd(c, t, -1) } else { f };
    if is_ep {
        assert(ep_move_ok(b, si, c, f, m, dest));
        assert(ep_ok(cells, si));
    } else {
        assert(bit(dest, t as u64));
    }
    let cells2 = cells_after_move(cells, c, m);
    assert forall|u: int| 0 <= u < 64 && u != f && u != t && u != x implies cells2[u] == cells[u] by {}
    assert(holds(cells2[t], c));
    assert(cells2[f] is None);
    assert(cells2[x] is None);
    if attacked_by(cells2, k, co) {
        let a = choose|a: int| 0 <= a < 64 && holds(cells2[a], co) && #[trigger] attacks_sq(cells2, a, k);
        lemma_child_attack(cells, cells2, k, f, t, x, a);
        lemma_bit_ops(valid, pm, t as u64);
        lemma_bit_ops(valid, pm, x as u64);
        crate::geometry::lemma_between_symmetric(a, k, t);
        crate::geometry::lemma_between_symmetric(a, k, f);
        crate::geometry::lemma_between_symmetric(a, k, x);
        if !between_spec(a, k, f) && !between_spec(a, k, x) {
            if kind(cells[a]) == Piece::King {
                assert(attacks_sq(cells, k, a));
                assert(attacked_by(cells, king_square(cells, co), c));
            } else {
                assert(is_checker(cells, c, k, a));
                assert(bit(ch, a as u64));
                crate::bits::lemma_pop_lsb(ch);
                crate::bits::lemma_bit_ops(0u64, 0u64, a as u64);
                assert(a == a0);
            }
        } else if between_spec(a, k, f) && (!is_ep || !between_spec(a, k, x)) {
            assert(is_slider(kind(cells[a])));
            assert(piece_attacks(kind(cells[a]), co, a, k, true));
            assert(crate::geometry::bishop_line(a, k) ==> crate::geometry::bishop_line(k, a));
            assert(rook_line(a, k) ==> rook_line(k, a));
            assert forall|u: int| 0 <= u < 64 && #[trigger] between_spec(k, a, u) && u != f implies cells[u] is None by {
                crate::geometry::lemma_between_symmetric(k, a, u);
            }
            assert(pinner(cells, c, k, a, f));
            let q = the_pinner(cells, c, k, f);
            lemma_pinner_unique(cells, c, k, a, q, f);
        } else if !between_spec(a, k, f) {
            assert(is_ep && between_spec(a, k, x));
            lemma_retro(b, si, m, a, x);
        } else {
            assert(is_ep && between_spec(a, k, f) && between_spec(a, k, x));
            assert(pawn_rel(c, f, t));
            assert(f / 8 == x / 8 && f != x);
            lemma_between_rank(a, k, f, x);
            assert(kind(cells[a]) == Piece::Rook || kind(cells[a]) == Piece::Queen);
            let fx = (1u64 << (f as u64)) | (1u64 << (x as u64));
            let occ2 = b.all_bb() & !fx;
            assert forall|u: int| 0 <= u < 64 && #[trigger] between_spec(k, a, u) implies !bit(occ2, u as u64) by {
                crate::geometry::lemma_between_symmetric(k, a, u);
                lemma_bit_ops(b.all_bb(), !fx, u as u64);
                lemma_bit_ops(fx, fx, u as u64);
                lemma_bit_ops(1u64 << (f as u64), 1u64 << (x as u64), u as u64);
                crate::bits::lemma_bit_or_single(0u64, f as u64, u as u64);
                crate::bits::lemma_bit_or_single(0u64, x as u64, u as u64);
            }
            assert(rook_line(k, a) && path_clear(occ2, k, a));
            assert(!ep_discovery_ok(b, c, f, x));
            if ch == 0 {
                assert(!bit(pm, t as u64));
                assert(pinned(cells, c, k, f));
                let q = the_pinner(cells, c, k, f);
                assert(pinner(cells, c, k, q, f));
                assert(pin_line(k, q, x));
                assert(kind(cells[x]) == Piece::Pawn);
            } else {
                assert(blocks(k, a0, x));
                crate::bits::lemma_pop_lsb(ch);
                assert(is_checker(cells, c, k, a0));
                if x == a0 {
                    assert(pawn_rel(co, x, k));
                } else {
                    crate::geometry::lemma_between_symmetric(k, a0, x);
                    lemma_no_between_checker(cells, c, k, a0, x);
                }
            }
        }
    }
}

/// A square between `a` and `b` on the rank of `b` puts `a` on that rank, with the
/// square's file strictly between theirs.
proof fn lemma_rank_between(a: int, b: int, u: int)
    requires
        0 <= a < 64,
        0 <= b < 64,
        u / 8 == b / 8,
        between_spec(a, b, u),
    ensures
        a / 8 == b / 8,
        (a % 8 < u % 8 < b % 8) || (b % 8 < u % 8 < a % 8),
{
    let j = crate::geometry::lemma_between_steps(a, b, u);
    crate::geometry::lemma_sq_decompose(a);
    crate::geometry::lemma_sq_decompose(b);
    crate::geometry::lemma_sq_decompose(u);
}

/// On one rank, a square whose file lies strictly between those of `a` and `b` is
/// between them.
proof fn lemma_rank_between_rev(a: int, b: int, u: int)
    requires
        0 <= a < 64,
        0 <= b < 64,
        0 <= u < 64,
        a / 8 == b / 8,
        u / 8 == b / 8,
        (a % 8 < u % 8 < b % 8) || (b % 8 < u % 8 < a % 8),
    ensures
        between_spec(a, b, u),
{
    crate::geometry::lemma_sq_decompose(a);
    crate::geometry::lemma_sq_decompose(b);
    crate::geometry::lemma_sq_decompose(u);
    let j = if a % 8 < u % 8 { u % 8 - a % 8 } else { a % 8 - u % 8 };
    crate::geometry::lemma_step_between(a, b, j);
}

/// A king step chosen by the generator lands on a square no enemy piece attacks once
/// the king stands there.
pub proof fn lemma_king_step_safe(b: Board, c: Color, f: int, m: Move)
    requires
        b.wf(),
        0 <= f < 64,
        b.cells()[f] == Some((c, Piece::King)),
        king_step_ok(b, c, f, m),
    ensures
        !attacked_by(cells_after_move(b.cells(), c, m), m.to_sq().0 as int, c.opposite()),
{
    let cells = b.cells();
    let co = c.opposite();
    let t = m.to_sq().0 as int;
    crate::moves::lemma_move_squares(m);
    let cells2 = cells_after_move(cells, c, m);
    assert(cells2[t] == Some((c, Piece::King)));
    let occ = crate::movegen::occ_without_king(b, c);
    if attacked_by(cells2, t, co) {
        let a = choose|a: int| 0 <= a < 64 && holds(cells2[a], co) && #[trigger] attacks_sq(cells2, a, t);
        assert(a != f && a != t);
        assert(cells2[a] == cells[a]);
        if is_slider(kind(cells[a])) {
            assert forall|u: int| 0 <= u < 64 && #[trigger] between_spec(a, t, u) implies !bit(occ, u as u64) by {
                assert(cells2[u] is None);
                lemma_bit_ops(b.all_bb(), !b.piece_bb(c, Piece::King), u as u64);
                lemma_bit_ops(b.piece_bb(c, Piece::King), b.piece_bb(c, Piece::King), u as u64);
            }
            assert(crate::geometry::path_clear(occ, a, t));
        } else {
            lemma_no_between_nonslider(kind(cells[a]), co, a, t, 0, empty_between(cells2, a, t));
        }
        assert(piece_attacks(kind(cells[a]), co, a, t, crate::geometry::path_clear(occ, a, t)));
        assert(crate::movegen::attacked_occ(cells, occ, t, co));
    }
}

/// Castling chosen by the generator in a legal position puts the king on a square no
/// enemy piece attacks, the rook it crossed to shielding it along the back rank.
#[verifier::rlimit(40)]
pub proof fn lemma_castle_safe(b: Board, si: StateInfo, m: Move)
    requires
        b.wf(),
        legal_position(b.cells(), si),
        0 <= m.from_sq().0 < 64,
        b.cells()[m.from_sq().0 as int] == Some((si.active_color, Piece::King)),
        castle_move_ok(b, si, si.active_color, m.from_sq().0 as int, m),
    ensures
        !attacked_by(cells_after_move(b.cells(), si.active_color, m), m.to_sq().0 as int, si.active_color.opposite()),
{
    let cells = b.cells();
    let c = si.active_color;
    let co = c.opposite();
    let f = m.from_sq().0 as int;
    let t = m.to_sq().0 as int;
    crate::moves::lemma_move_squares(m);
    lemma_castle_squares(cells, si, f);
    let short = m.flag() == MoveFlag::CastleKingside;
    let rook_to = if short { f + 1 } else { f - 1 };
    let corner = if short { f + 3 } else { f - 4 };
    let cells2 = cells_after_move(cells, c, m);
    assert(cells2[t] == Some((c, Piece::King)));
    assert(cells2[rook_to] == Some((c, Piece::Rook)));
    assert(cells2[f] is None && cells2[corner] is None);
    assert forall|u: int| 0 <= u < 64 && u != f && u != t && u != rook_to && u != corner implies cells2[u] == cells[u] by {}
    if attacked_by(cells2, t, co) {
        let a = choose|a: int| 0 <= a < 64 && holds(cells2[a], co) && #[trigger] attacks_sq(cells2, a, t);
        assert(a != f && a != t && a != rook_to && a != corner);
        assert(cells2[a] == cells[a]);
        if is_slider(kind(cells[a])) {
            assert forall|u: int| 0 <= u < 64 && #[trigger] between_spec(a, t, u) implies !bit(b.all_bb(), u as u64) by {
                assert(cells2[u] is None);
                if u == f || u == corner {
                    lemma_rank_between(a, t, u);
                    lemma_rank_between_rev(a, t, rook_to);
                    assert(cells2[rook_to] is None);
                }
            }
            assert(crate::geometry::path_clear(b.all_bb(), a, t));
        } else {
            lemma_no_between_nonslider(kind(cells[a]), co, a, t, 0, empty_between(cells2, a, t));
        }
        assert(piece_attacks(kind(cells[a]), co, a, t, crate::geometry::path_clear(b.all_bb(), a, t)));
        assert(crate::movegen::attacked_occ(cells, b.all_bb(), t, co));
    }
}

/// What a generated move is, in terms of the squares: a piece of the side to move
/// leaves `f` for `t`, which was empty or held an enemy piece that the mover attacks;
/// pawns obey the pawn rules (promoting on the last rank), en passant takes the pawn
/// that just passed, only the king castles, and only pawns promote.
pub open spec fn move_facts(b: Board, si: StateInfo, m: Move) -> bool {
    let cells = b.cells();
    let c = si.active_color;
    let co = c.opposite();
    let f = m.from_sq().0 as int;
    let t = m.to_sq().0 as int;
    let flag = m.flag();
    let p = kind(cells[f]);
    &&& 0 <= f < 64
    &&& 0 <= t < 64
    &&& f != t
    &&& holds(cells[f], c)
    &&& m.has_valid_flag()
    &&& (cells[t] is None || (holds(cells[t], co) && attacks_sq(cells, f, t)))
    &&& (flag == MoveFlag::EnPassant ==> p == Piece::Pawn && cells[t] is None && si.ep_square == Some(
        crate::square::Sq64(t as u8),
    ) && pawn_rel(c, f, t))
    &&& (flag == MoveFlag::CastleKingside || flag == MoveFlag::CastleQueenside ==> p == Piece::King
        && castle_move_ok(b, si, c, f, m))
    &&& (p == Piece::Pawn && flag != MoveFlag::EnPassant ==> exists|v: u64| pawn_move_ok(cells, c, f, m, v))
    &&& (p != Piece::Pawn ==> !flag.spec_is_promotion() && flag != MoveFlag::DoublePawnPush && flag
        != MoveFlag::EnPassant)
    &&& (p == Piece::King && flag != MoveFlag::CastleKingside && flag != MoveFlag::CastleQueenside
        ==> king_step_ok(b, c, f, m))
}

/// The facts of `move_facts` hold of every generated move in a legal position.
pub proof fn lemma_gen_facts(b: Board, si: StateInfo, only_capture: bool, m: Move)
    requires
        b.wf(),
        legal_position(b.cells(), si),
        gen_move(b, si, only_capture, m),
    ensures
        move_facts(b, si, m),
{
    let cells = b.cells();
    let c = si.active_color;
    let co = c.opposite();
    let f = m.from_sq().0 as int;
    let t = m.to_sq().0 as int;
    crate::moves::lemma_move_squares(m);
    lemma_gen_shape(b, si, only_capture, m);
    let ch = checkers_bb(b, c);
    let k = king_sq_of(b, c);
    assert(b.has_piece(c, Piece::King));
    lemma_king_sq_of(b, c);
    if ch & ((ch - 1) as u64) != 0 && ch != 0 {
        assert(king_step_ok(b, c, k, m));
    } else {
        let valid = if ch == 0 {
            if only_capture { b.color_bb(c.opposite()) } else { 0xFFFF_FFFF_FFFF_FFFFu64 }
        } else {
            block_mask(b, c, vstd::std_specs::bits::u64_trailing_zeros(ch) as int)
        };
        assert(gen_ok(b, si, c, valid, ch == 0, m));
        let dest = valid & pin_mask(cells, c, k, f);
        if kind(cells[f]) == Piece::Pawn {
            if pawn_move_ok(cells, c, f, m, dest) {
                assert(exists|v: u64| pawn_move_ok(cells, c, f, m, v));
            } else {
                assert(ep_move_ok(b, si, c, f, m, dest));
                assert(ep_ok(cells, si));
            }
        }
    }
}

/// After a generated move each side still has exactly one king: the mover's on `t` when
/// it moved the king, else where it stood, and the other side's untouched.
pub proof fn lemma_child_kings(b: Board, si: StateInfo, m: Move)
    requires
        b.wf(),
        legal_position(b.cells(), si),
        move_facts(b, si, m),
        move_shape_ok(b.cells(), si.active_color, m),
    ensures
        sole_king(
            cells_after_move(b.cells(), si.active_color, m),
            si.active_color,
            if kind(b.cells()[m.from_sq().0 as int]) == Piece::King {
                m.to_sq().0 as int
            } else {
                king_square(b.cells(), si.active_color)
            },
        ),
        sole_king(
            cells_after_move(b.cells(), si.active_color, m),
            si.active_color.opposite(),
            king_square(b.cells(), si.active_color.opposite()),
        ),
{
    let cells = b.cells();
    let c = si.active_color;
    let co = c.opposite();
    let f = m.from_sq().0 as int;
    let t = m.to_sq().0 as int;
    lemma_king_square(cells, c);
    lemma_king_square(cells, co);
    let k = king_square(cells, c);
    let ke = king_square(cells, co);
    let cells2 = cells_after_move(cells, c, m);
    if cells[t] is Some {
        assert(attacks_sq(cells, f, t));
        assert(t != ke);
    }
    let flag = m.flag();
    assert(flag.spec_is_promotion() ==> flag.spec_promoted_piece() != Piece::King);
    if kind(cells[f]) == Piece::King {
        assert(f == k);
        assert forall|s: int| 0 <= s < 64 && #[trigger] cells2[s] == Some((c, Piece::King)) implies s == t by {
            if s != t {
                assert(cells2[s] == cells[s] || cells2[s] is None || cells2[s] == Some((c, Piece::Rook)));
            }
        }
    } else {
        assert forall|s: int| 0 <= s < 64 && #[trigger] cells2[s] == Some((c, Piece::King)) implies s == k by {
            assert(cells2[s] == cells[s] || s == t || s == f || cells2[s] is None);
        }
    }
    assert forall|s: int| 0 <= s < 64 && #[trigger] cells2[s] == Some((co, Piece::King)) implies s == ke by {
        assert(cells2[s] == cells[s] || holds(cells2[s], c) || cells2[s] is None);
    }
}

/// After a generated move no pawn stands on the first or last rank.
pub proof fn lemma_child_pawns(b: Board, si: StateInfo, m: Move)
    requires
        b.wf(),
        legal_position(b.cells(), si),
        move_facts(b, si, m),
        move_shape_ok(b.cells(), si.active_color, m),
    ensures
        pawns_inside(cells_after_move(b.cells(), si.active_color, m)),
{
    let cells = b.cells();
    let c = si.active_color;
    let f = m.from_sq().0 as int;
    let t = m.to_sq().0 as int;
    let cells2 = cells_after_move(cells, c, m);
    if kind(cells[f]) == Piece::Pawn && m.flag() != MoveFlag::EnPassant {
        let v = choose|v: u64| pawn_move_ok(cells, c, f, m, v);
        assert(pawn_move_ok(cells, c, f, m, v));
    }
    if m.flag() == MoveFlag::EnPassant {
        assert(ep_ok(cells, si));
    }
    assert forall|s: int| 0 <= s < 64 && #[trigger] cells2[s] is Some && kind(cells2[s]) == Piece::Pawn implies 8 <= s < 56 by {
        if s != t {
            assert(cells2[s] == cells[s] || cells2[s] is None || cells2[s] == Some((c, Piece::Rook)));
        } else {
            assert(m.flag().spec_is_promotion() ==> m.flag().spec_promoted_piece() != Piece::Pawn);
        }
    }
}

proof fn lemma_rights_bits(cr: u8, x: u8, r: u8)
    requires
        r == 8u8 || r == 4u8 || r == 2u8 || r == 1u8,
    ensures
        (cr & !x) & r != 0 ==> cr & r != 0 && x & r == 0,
{
    assert((r == 8u8 || r == 4u8 || r == 2u8 || r == 1u8) ==> ((cr & !x) & r != 0 ==> cr & r != 0 && x & r == 0)) by (bit_vector);
}

/// After a generated move every castling right still held has its king and rook at home:
/// moving the king drops both rights of its side, moving a rook or capturing on a corner
/// drops that corner's right.
#[verifier::rlimit(60)]
pub proof fn lemma_child_castle(b: Board, si: StateInfo, m: Move)
    requires
        b.wf(),
        legal_position(b.cells(), si),
        move_facts(b, si, m),
        move_shape_ok(b.cells(), si.active_color, m),
    ensures
        castle_ok(
            cells_after_move(b.cells(), si.active_color, m),
            state_after_move(b.cells(), si, m).castle_rights,
        ),
{
    let cells = b.cells();
    let c = si.active_color;
    let co = c.opposite();
    let f = m.from_sq().0 as int;
    let t = m.to_sq().0 as int;
    let flag = m.flag();
    let piece = kind(cells[f]);
    let cr = si.castle_rights;
    let cr1 = if piece == Piece::King { cr & !crate::state_info::color_castle_mask(c) } else { cr };
    let cr2 = if piece == Piece::Rook { cr1 & !crate::state_info::corner_mask(f as u8) } else { cr1 };
    let cr3 = if flag.spec_is_capture() && flag != MoveFlag::EnPassant { cr2 & !crate::state_info::corner_mask(t as u8) } else { cr2 };
    assert(cr3 == state_after_move(cells, si, m).castle_rights);
    let cells2 = cells_after_move(cells, c, m);
    lemma_king_square(cells, co);
    let ke = king_square(cells, co);
    if cells[t] is Some {
        assert(attacks_sq(cells, f, t));
        assert(t != ke);
    }
    if flag == MoveFlag::EnPassant {
        assert(ep_ok(cells, si));
    }
    let r8 = 8u8;
    let r4 = 4u8;
    let r2 = 2u8;
    let r1 = 1u8;
    lemma_rights_bits(cr, crate::state_info::color_castle_mask(c), r8);
    lemma_rights_bits(cr, crate::state_info::color_castle_mask(c), r4);
    lemma_rights_bits(cr, crate::state_info::color_castle_mask(c), r2);
    lemma_rights_bits(cr, crate::state_info::color_castle_mask(c), r1);
    lemma_rights_bits(cr1, crate::state_info::corner_mask(f as u8), r8);
    lemma_rights_bits(cr1, crate::state_info::corner_mask(f as u8), r4);
    lemma_rights_bits(cr1, crate::state_info::corner_mask(f as u8), r2);
    lemma_rights_bits(cr1, crate::state_info::corner_mask(f as u8), r1);
    lemma_rights_bits(cr2, crate::state_info::corner_mask(t as u8), r8);
    lemma_rights_bits(cr2, crate::state_info::corner_mask(t as u8), r4);
    lemma_rights_bits(cr2, crate::state_info::corner_mask(t as u8), r2);
    lemma_rights_bits(cr2, crate::state_info::corner_mask(t as u8), r1);
    assert(0b1100u8 & 8u8 != 0 && 0b1100u8 & 4u8 != 0 && 0b1100u8 & 2u8 == 0 && 0b1100u8 & 1u8 == 0
        && 0b0011u8 & 8u8 == 0 && 0b0011u8 & 4u8 == 0 && 0b0011u8 & 2u8 != 0 && 0b0011u8 & 1u8 != 0
        && 8u8 & 8u8 != 0 && 4u8 & 4u8 != 0 && 2u8 & 2u8 != 0 && 1u8 & 1u8 != 0
        && 0u8 & 8u8 == 0 && 0u8 & 4u8 == 0 && 0u8 & 2u8 == 0 && 0u8 & 1u8 == 0
        && 8u8 & 4u8 == 0 && 8u8 & 2u8 == 0 && 8u8 & 1u8 == 0 && 4u8 & 8u8 == 0 && 4u8 & 2u8 == 0 && 4u8 & 1u8 == 0
        && 2u8 & 8u8 == 0 && 2u8 & 4u8 == 0 && 2u8 & 1u8 == 0 && 1u8 & 8u8 == 0 && 1u8 & 4u8 == 0 && 1u8 & 2u8 == 0)
        by (bit_vector);
}

/// The king of a colour with one king is found on its square.
pub proof fn lemma_sole_king_square(cells: Seq<Cell>, c: Color, s: int)
    requires
        sole_king(cells, c, s),
    ensures
        one_king(cells, c),
        king_square(cells, c) == s,
{
    assert(one_king(cells, c));
    lemma_king_square(cells, c);
}

/// After a generated move the en passant square, set only by a double push, is the
/// square just passed, and the pushed pawn keeps no line to the other king closed on
/// its own: such a line would have been open before the push, with that king attacked
/// while it was not its side's turn.
pub proof fn lemma_child_ep(b: Board, si: StateInfo, m: Move)
    requires
        b.wf(),
        legal_position(b.cells(), si),
        move_facts(b, si, m),
        move_shape_ok(b.cells(), si.active_color, m),
    ensures
        ep_ok(cells_after_move(b.cells(), si.active_color, m), state_after_move(b.cells(), si, m)),
{
    let cells = b.cells();
    let c = si.active_color;
    let co = c.opposite();
    let f = m.from_sq().0 as int;
    let t = m.to_sq().0 as int;
    let cells2 = cells_after_move(cells, c, m);
    let si2 = state_after_move(cells, si, m);
    if m.flag() == MoveFlag::DoublePawnPush {
        let v = choose|v: u64| pawn_move_ok(cells, c, f, m, v);
        assert(pawn_move_ok(cells, c, f, m, v));
        let e = fwd(c, f, 1);
        assert(si2.ep_square == Some(crate::square::Sq64(e as u8)));
        lemma_child_kings(b, si, m);
        lemma_king_square(cells, co);
        lemma_sole_king_square(cells2, co, king_square(cells, co));
        let k2 = king_square(cells, co);
        let op = ep_opened(cells2, co, e);
        assert forall|a: int|
            0 <= a < 64 && holds(op[a], c) && kind(op[a]) != Piece::King && #[trigger] attacks_sq(op, a, k2)
                implies attacks_sq(cells2, a, k2) by {
            assert(a != t && a != e && a != f);
            assert(cells2[a] == op[a] && cells[a] == op[a]);
            if is_slider(kind(op[a])) {
                if between_spec(a, k2, e) {
                    assert(op[e] is None);
                }
                if between_spec(a, k2, t) {
                    if between_spec(a, k2, f) {
                        match c {
                            Color::White => lemma_between_file(a, k2, f, t),
                            Color::Black => lemma_between_file(a, k2, t, f),
                        }
                    }
                    assert forall|u: int| 0 <= u < 64 && #[trigger] between_spec(a, k2, u) implies cells[u] is None by {}
                    assert(attacks_sq(cells, a, k2));
                    assert(attacked_by(cells, king_square(cells, co), c));
                }
                assert forall|u: int| 0 <= u < 64 && #[trigger] between_spec(a, k2, u) implies cells2[u] is None by {}
            }
        }
    }
}

/// Law: a move that `generate_moves` produces in a legal position can be made, and leads
/// to a legal position. Capture-only generation lets en passant through without looking
/// at the rank of the two pawns, so that one case is left out here.
pub proof fn law_generated_move_legal(b: Board, si: StateInfo, only_capture: bool, m: Move)
    requires
        b.wf(),
        legal_position(b.cells(), si),
        gen_move(b, si, only_capture, m),
        only_capture && m.flag() == MoveFlag::EnPassant ==> ep_discovery_ok(
            b,
            si.active_color,
            m.from_sq().0 as int,
            fwd(si.active_color, m.to_sq().0 as int, -1),
        ),
    ensures
        move_shape_ok(b.cells(), si.active_color, m),
        legal_position(
            cells_after_move(b.cells(), si.active_color, m),
            state_after_move(b.cells(), si, m),
        ),
{
    let cells = b.cells();
    let c = si.active_color;
    let co = c.opposite();
    let f = m.from_sq().0 as int;
    let t = m.to_sq().0 as int;
    lemma_gen_shape(b, si, only_capture, m);
    lemma_gen_facts(b, si, only_capture, m);
    lemma_child_kings(b, si, m);
    lemma_child_pawns(b, si, m);
    lemma_child_castle(b, si, m);
    lemma_child_ep(b, si, m);
    let cells2 = cells_after_move(cells, c, m);
    let si2 = state_after_move(cells, si, m);
    lemma_king_square(cells, c);
    lemma_king_square(cells, co);
    let mover_king = if kind(cells[f]) == Piece::King { t } else { king_square(cells, c) };
    lemma_sole_king_square(cells2, c, mover_king);
    lemma_sole_king_square(cells2, co, king_square(cells, co));
    assert(si2.active_color.opposite() == c);
    if kind(cells[f]) == Piece::King {
        if m.flag() == MoveFlag::CastleKingside || m.flag() == MoveFlag::CastleQueenside {
            lemma_castle_safe(b, si, m);
        } else {
            lemma_king_step_safe(b, c, f, m);
        }
    } else {
        assert(b.has_piece(c, Piece::King));
        lemma_king_sq_of(b, c);
        lemma_nonking_safe(b, si, only_capture, m);
    }
}

} // verus!
