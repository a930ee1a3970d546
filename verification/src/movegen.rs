use vstd::prelude::*;
use crate::attacks::{
    between, between_spec, get_bishop_moves, get_rook_moves, king_attacks, knight_attacks,
    pawn_attacks, pawn_offsets, KING_OFFSETS, KNIGHT_OFFSETS,
};
use crate::bits::{bit, lemma_bit_ops, lemma_pop_lsb, lemma_bit_ext};
use crate::board::{Board, Cell};
use crate::board_state::{holds, kind};
use crate::attacks::{lin, sign};
use crate::geometry::{
    dist, lemma_between_steps, lemma_sq_decompose, lemma_step_between,
    bishop_line, king_rel, knight_rel, lemma_between_symmetric, lemma_bishop_slides,
    lemma_king_rel, lemma_knight_rel, lemma_pawn_rel, lemma_rook_slides, path_clear, pawn_rel,
    rook_line,
};
use crate::piece::{Color, Piece};
use crate::position::{attacks_sq, empty_between, lemma_path_clear_cells, piece_attacks};
use crate::square::Sq64;
use crate::moves::{Move, MoveFlag};
use crate::state_info::StateInfo;
use crate::position::castle_ok;

verus! {

/// The squares of a bitboard, lowest first.
pub struct BitboardIter(pub u64);

/// Removes the lowest square from a nonzero bitboard and returns it.
pub fn pop_lsb(bb: &mut u64) -> (sq: Sq64)
    requires
        *old(bb) != 0,
    ensures
        sq.valid(),
        bit(*old(bb), sq.0 as u64),
        forall|j: u64| j < sq.0 ==> !#[trigger] bit(*old(bb), j),
        forall|i: u64| i < 64 ==> #[trigger] bit(*final(bb), i) == (bit(*old(bb), i) && i != sq.0),
        *final(bb) < *old(bb),
{
    proof {
        lemma_pop_lsb(*bb);
    }
    let sq = bb.trailing_zeros() as u8;
    *bb = *bb & (*bb - 1);
    Sq64(sq)
}

impl BitboardIter {
    /// The lowest square still in the bitboard, which it removes; `None` when empty.
    pub fn next(&mut self) -> (r: Option<Sq64>)
        ensures
            old(self).0 == 0 ==> r is None && final(self).0 == 0,
            old(self).0 != 0 ==> (r matches Some(sq) && sq.valid() && bit(old(self).0, sq.0 as u64)
                && (forall|j: u64| j < sq.0 ==> !#[trigger] bit(old(self).0, j))
                && (forall|i: u64| i < 64 ==> #[trigger] bit(final(self).0, i) == (bit(old(self).0, i) && i != sq.0))),
    {
        if self.0 == 0 {
            return None;
        }
        let mut bb = self.0;
        let sq = pop_lsb(&mut bb);
        self.0 = bb;
        Some(sq)
    }
}

/// The lowest square holding a king of colour `c` (64 when there is none).
pub open spec fn king_sq_of(b: Board, c: Color) -> int {
    vstd::std_specs::bits::u64_trailing_zeros(b.piece_bb(c, Piece::King)) as int
}

/// With a king of colour `c` on the board, `king_sq_of` is the lowest square holding one.
pub proof fn lemma_king_sq_of(b: Board, c: Color)
    requires
        b.wf(),
        b.has_piece(c, Piece::King),
    ensures
        0 <= king_sq_of(b, c) < 64,
        b.cells()[king_sq_of(b, c)] == Some((c, Piece::King)),
        forall|j: int| 0 <= j < king_sq_of(b, c) ==> b.cells()[j] != Some((c, Piece::King)),
{
    let bb = b.piece_bb(c, Piece::King);
    vstd::std_specs::bits::axiom_u64_trailing_zeros(bb);
    let j0 = choose|j: int| 0 <= j < 64 && b.cells()[j] == Some((c, Piece::King));
    assert(bit(bb, j0 as u64));
    if bb == 0 {
        lemma_zero_no_bits(bb);
    }
    let tz = vstd::std_specs::bits::u64_trailing_zeros(bb) as u64;
    assert(bit(bb, tz));
    assert forall|j: int| 0 <= j < tz implies b.cells()[j] != Some((c, Piece::King)) by {
        assert((bb >> (j as u64)) & 1u64 == 0u64);
        assert(!bit(bb, j as u64));
    }
}

/// The enemy pieces other than the king that attack the king of colour `c`.
pub open spec fn is_checker(cells: Seq<Cell>, c: Color, k: int, a: int) -> bool {
    holds(cells[a], c.opposite()) && kind(cells[a]) != Piece::King && attacks_sq(cells, a, k)
}

/// Pieces of colour `by` that attack `t` when the occupied squares are those of `occ`.
pub open spec fn attacked_occ(cells: Seq<Cell>, occ: u64, t: int, by: Color) -> bool {
    exists|a: int|
        0 <= a < 64 && holds(cells[a], by) && #[trigger] piece_attacks(kind(cells[a]), by, a, t, path_clear(occ, a, t))
}

proof fn lemma_piece_bits(b: Board, c: Color, p: Piece, t: u64)
    requires
        b.wf(),
        t < 64,
    ensures
        bit(b.piece_bb(c, p), t) <==> b.cells()[t as int] == Some((c, p)),
{
}

pub proof fn lemma_color_bits(b: Board, c: Color, t: u64)
    requires
        b.wf(),
        t < 64,
    ensures
        bit(b.color_bb(c), t) <==> holds(b.cells()[t as int], c),
{
}

/// The enemy pieces (other than the king) attacking the king of colour `c`.
pub fn compute_checkers(board: &Board, c: Color) -> (r: u64)
    requires
        board.wf(),
        board.has_piece(c, Piece::King),
    ensures
        forall|t: u64| t < 64 ==> (#[trigger] bit(r, t) <==> is_checker(board.cells(), c, king_sq_of(*board, c), t as int)),
{
    let king_sq = board.find_king(c);
    let co = c.flip();
    let pat = pawn_attacks(c, king_sq);
    let kat = knight_attacks(king_sq);
    let bat = get_bishop_moves(king_sq, board.occ());
    let rat = get_rook_moves(king_sq, board.occ());
    let pa = pat & board.get_piece_bitboard(co, Piece::Pawn);
    let na = kat & board.get_piece_bitboard(co, Piece::Knight);
    let ba = bat & (board.get_piece_bitboard(co, Piece::Bishop)
        | board.get_piece_bitboard(co, Piece::Queen));
    let ra = rat & (board.get_piece_bitboard(co, Piece::Rook)
        | board.get_piece_bitboard(co, Piece::Queen));
    let bb = pa | na | ba | ra;
    proof {
        let k = king_sq.0 as int;
        let cells = board.cells();
        assert forall|t: u64| t < 64 implies (#[trigger] bit(bb, t) <==> is_checker(cells, c, k, t as int)) by {
            let ti = t as int;
            lemma_bit_ops(pa | na | ba, ra, t);
            lemma_bit_ops(pa | na, ba, t);
            lemma_bit_ops(pa, na, t);
            lemma_bit_ops(pat, board.piece_bb(co, Piece::Pawn), t);
            lemma_bit_ops(kat, board.piece_bb(co, Piece::Knight), t);
            lemma_bit_ops(bat, board.piece_bb(co, Piece::Bishop) | board.piece_bb(co, Piece::Queen), t);
            lemma_bit_ops(board.piece_bb(co, Piece::Bishop), board.piece_bb(co, Piece::Queen), t);
            lemma_bit_ops(rat, board.piece_bb(co, Piece::Rook) | board.piece_bb(co, Piece::Queen), t);
            lemma_bit_ops(board.piece_bb(co, Piece::Rook), board.piece_bb(co, Piece::Queen), t);
            lemma_piece_bits(*board, co, Piece::Pawn, t);
            lemma_piece_bits(*board, co, Piece::Knight, t);
            lemma_piece_bits(*board, co, Piece::Bishop, t);
            lemma_piece_bits(*board, co, Piece::Rook, t);
            lemma_piece_bits(*board, co, Piece::Queen, t);
            lemma_pawn_rel(c, k, ti);
            lemma_knight_rel(k, ti);
            lemma_bishop_slides(k, board.all_bb(), ti);
            lemma_rook_slides(k, board.all_bb(), ti);
            lemma_path_clear_cells(*board, k, ti);
            lemma_path_clear_cells(*board, ti, k);
            assert forall|u: int| 0 <= u < 64 implies between_spec(k, ti, u) == between_spec(ti, k, u) by {
                lemma_between_symmetric(k, ti, u);
            }
            assert(empty_between(cells, k, ti) == empty_between(cells, ti, k));
        }
    }
    bb
}

pub proof fn lemma_symmetric_between(x: int, y: int)
    requires
        0 <= x < 64,
        0 <= y < 64,
    ensures
        forall|u: int| #![trigger between_spec(x, y, u)] #![trigger between_spec(y, x, u)] between_spec(x, y, u) == between_spec(y, x, u),
{
    assert forall|u: int| #![trigger between_spec(x, y, u)] #![trigger between_spec(y, x, u)] between_spec(x, y, u) == between_spec(y, x, u) by {
        lemma_between_symmetric(x, y, u);
    }
}

proof fn lemma_nonzero_witness(x: u64)
    requires
        x != 0,
    ensures
        exists|i: u64| i < 64 && #[trigger] bit(x, i),
{
    lemma_pop_lsb(x);
}

proof fn lemma_zero_no_bits(x: u64)
    requires
        x == 0,
    ensures
        forall|i: u64| i < 64 ==> !#[trigger] bit(x, i),
{
    assert forall|i: u64| i < 64 implies !#[trigger] bit(x, i) by {
        lemma_bit_ops(x, x, i);
    }
}

/// Whether a piece of colour `by_color` attacks `sq`, sliders seeing through every
/// square not in `occ_no_king`.
pub fn is_attacked(board: &Board, sq: Sq64, by_color: Color, occ_no_king: u64) -> (r: bool)
    requires
        board.wf(),
        sq.valid(),
    ensures
        r == attacked_occ(board.cells(), occ_no_king, sq.0 as int, by_color),
{
    let kat = knight_attacks(sq);
    let gat = king_attacks(sq);
    let pat = pawn_attacks(by_color.flip(), sq);
    let bat = get_bishop_moves(sq, occ_no_king);
    let rat = get_rook_moves(sq, occ_no_king);
    let n = kat & board.get_piece_bitboard(by_color, Piece::Knight);
    let k = gat & board.get_piece_bitboard(by_color, Piece::King);
    let p = pat & board.get_piece_bitboard(by_color, Piece::Pawn);
    let bq = board.get_piece_bitboard(by_color, Piece::Bishop) | board.get_piece_bitboard(by_color, Piece::Queen);
    let rq = board.get_piece_bitboard(by_color, Piece::Rook) | board.get_piece_bitboard(by_color, Piece::Queen);
    let b = bat & bq;
    let rr = rat & rq;
    let res = n != 0 || k != 0 || p != 0 || b != 0 || rr != 0;
    proof {
        let cells = board.cells();
        let s = sq.0 as int;
        let any = n | k | p | b | rr;
        assert(((n | k | p | b | rr) != 0) == (n != 0 || k != 0 || p != 0 || b != 0 || rr != 0)) by (bit_vector);
        assert forall|a: u64| a < 64 implies (#[trigger] bit(any, a) <==> (holds(cells[a as int], by_color) && piece_attacks(kind(cells[a as int]), by_color, a as int, s, path_clear(occ_no_king, a as int, s)))) by {
            let ai = a as int;
            lemma_bit_ops(n | k | p | b, rr, a);
            lemma_bit_ops(n | k | p, b, a);
            lemma_bit_ops(n | k, p, a);
            lemma_bit_ops(n, k, a);
            lemma_bit_ops(kat, board.piece_bb(by_color, Piece::Knight), a);
            lemma_bit_ops(gat, board.piece_bb(by_color, Piece::King), a);
            lemma_bit_ops(pat, board.piece_bb(by_color, Piece::Pawn), a);
            lemma_bit_ops(bat, bq, a);
            lemma_bit_ops(rat, rq, a);
            lemma_bit_ops(board.piece_bb(by_color, Piece::Bishop), board.piece_bb(by_color, Piece::Queen), a);
            lemma_bit_ops(board.piece_bb(by_color, Piece::Rook), board.piece_bb(by_color, Piece::Queen), a);
            lemma_piece_bits(*board, by_color, Piece::Pawn, a);
            lemma_piece_bits(*board, by_color, Piece::Knight, a);
            lemma_piece_bits(*board, by_color, Piece::Bishop, a);
            lemma_piece_bits(*board, by_color, Piece::Rook, a);
            lemma_piece_bits(*board, by_color, Piece::Queen, a);
            lemma_piece_bits(*board, by_color, Piece::King, a);
            lemma_pawn_rel(by_color.opposite(), s, ai);
            lemma_knight_rel(s, ai);
            lemma_king_rel(s, ai);
            lemma_bishop_slides(s, occ_no_king, ai);
            lemma_rook_slides(s, occ_no_king, ai);
            lemma_symmetric_between(s, ai);
            assert(path_clear(occ_no_king, s, ai) == path_clear(occ_no_king, ai, s));
            assert(by_color.opposite().opposite() == by_color);
        }
        if res {
            assert(any != 0);
            lemma_nonzero_witness(any);
            let a = choose|i: u64| i < 64 && #[trigger] bit(any, i);
            assert(piece_attacks(kind(cells[a as int]), by_color, a as int, s, path_clear(occ_no_king, a as int, s)));
        } else {
            assert(any == 0);
            lemma_zero_no_bits(any);
            if attacked_occ(cells, occ_no_king, s, by_color) {
                let a = choose|a: int| 0 <= a < 64 && holds(cells[a], by_color) && #[trigger] piece_attacks(kind(cells[a]), by_color, a, s, path_clear(occ_no_king, a, s));
                assert(bit(any, a as u64));
            }
        }
    }
    res
}

/// The enemy slider on `p` pins the friendly piece on `f` to the king on `k` of colour
/// `c`: `p` attacks along a line through `f` to the king, and `f` is the only piece
/// between them.
pub open spec fn pinner(cells: Seq<Cell>, c: Color, k: int, p: int, f: int) -> bool {
    &&& 0 <= p < 64
    &&& holds(cells[p], c.opposite())
    &&& ((rook_line(k, p) && (kind(cells[p]) == Piece::Rook || kind(cells[p]) == Piece::Queen)) || (
    bishop_line(k, p) && (kind(cells[p]) == Piece::Bishop || kind(cells[p]) == Piece::Queen)))
    &&& between_spec(k, p, f)
    &&& holds(cells[f], c)
    &&& forall|u: int| 0 <= u < 64 && #[trigger] between_spec(k, p, u) && u != f ==> cells[u] is None
}

/// A pinned piece has one pinner: the first piece beyond it on the line from the king.
pub proof fn lemma_pinner_unique(cells: Seq<Cell>, c: Color, k: int, p1: int, p2: int, f: int)
    requires
        0 <= k < 64,
        pinner(cells, c, k, p1, f),
        pinner(cells, c, k, p2, f),
    ensures
        p1 == p2,
{
    let j1 = lemma_between_steps(k, p1, f);
    let j2 = lemma_between_steps(k, p2, f);
    let sr1 = sign(p1 / 8 - k / 8);
    let sf1 = sign(p1 % 8 - k % 8);
    let sr2 = sign(p2 / 8 - k / 8);
    let sf2 = sign(p2 % 8 - k % 8);
    assert(sr1 == sr2 && sf1 == sf2 && j1 == j2);
    let n1 = dist(k, p1);
    let n2 = dist(k, p2);
    lemma_sq_decompose(p1);
    lemma_sq_decompose(p2);
    if n1 < n2 {
        lemma_step_between(k, p2, n1);
        assert(between_spec(k, p2, p1));
        assert(cells[p1] is None);
    } else if n2 < n1 {
        lemma_step_between(k, p1, n2);
        assert(between_spec(k, p1, p2));
        assert(cells[p2] is None);
    }
}

/// The piece on `f` is pinned.
pub open spec fn pinned(cells: Seq<Cell>, c: Color, k: int, f: int) -> bool {
    exists|p: int| #[trigger] pinner(cells, c, k, p, f)
}

/// The squares a pinned piece may still move to: the line to its pinner, pinner included.
pub open spec fn pin_line(k: int, p: int, t: int) -> bool {
    between_spec(k, p, t) || t == p
}

/// The pin tables record, for the pinners among those on `done`, which pieces are pinned
/// and along which line; every other piece may move anywhere.
pub open spec fn pins_ok(cells: Seq<Cell>, c: Color, k: int, done: u64, pinned_sqs: u64, pins: Seq<u64>) -> bool {
    &&& pins.len() == 64
    &&& forall|f: u64| f < 64 ==> (#[trigger] bit(pinned_sqs, f) <==> exists|p: u64| p < 64 && bit(done, p) && #[trigger] pinner(cells, c, k, p as int, f as int))
    &&& forall|f: u64|
        f < 64 && #[trigger] bit(pinned_sqs, f) ==> exists|p: u64|
            p < 64 && bit(done, p) && #[trigger] pinner(cells, c, k, p as int, f as int) && forall|t: u64|
                t < 64 ==> (bit(pins[f as int], t) <==> #[trigger] pin_line(k, p as int, t as int))
    &&& forall|f: u64| f < 64 && !#[trigger] bit(pinned_sqs, f) ==> pins[f as int] == 0xFFFF_FFFF_FFFF_FFFFu64
}

/// A possible pinner: an enemy slider with no enemy piece between it and the king, on
/// a line it moves along.
pub open spec fn pin_candidate(cells: Seq<Cell>, c: Color, k: int, p: int) -> bool {
    &&& holds(cells[p], c.opposite())
    &&& ((rook_line(k, p) && (kind(cells[p]) == Piece::Rook || kind(cells[p]) == Piece::Queen)) || (
    bishop_line(k, p) && (kind(cells[p]) == Piece::Bishop || kind(cells[p]) == Piece::Queen)))
    &&& forall|u: int| 0 <= u < 64 && #[trigger] between_spec(k, p, u) ==> !holds(cells[u], c.opposite())
}

/// Records the pins by the candidate pinners on `bb`.
fn push_pins(
    board: &Board,
    c: Color,
    king_sq: Sq64,
    pins: &mut [u64; 64],
    pinned_sqs: &mut u64,
    bb: u64,
    Ghost(done): Ghost<u64>,
)
    requires
        board.wf(),
        king_sq.valid(),
        pins_ok(board.cells(), c, king_sq.0 as int, done, *old(pinned_sqs), old(pins)@),
        forall|p: u64| p < 64 && #[trigger] bit(bb, p) ==> pin_candidate(board.cells(), c, king_sq.0 as int, p as int),
    ensures
        pins_ok(board.cells(), c, king_sq.0 as int, done | bb, *final(pinned_sqs), final(pins)@),
{
    let ghost cells = board.cells();
    let ghost k = king_sq.0 as int;
    let mut rest = bb;
    let ghost mut done_now = done;
    proof {
        assert forall|i: u64| i < 64 implies #[trigger] bit(done_now, i) == (bit(done, i) || (bit(bb, i) && !bit(rest, i))) by {
            lemma_bit_ops(bb, bb, i);
        }
    }
    while rest != 0
        invariant
            board.wf(),
            cells == board.cells(),
            k == king_sq.0,
            king_sq.valid(),
            forall|p: u64| p < 64 && #[trigger] bit(bb, p) ==> pin_candidate(cells, c, k, p as int),
            forall|i: u64| i < 64 ==> #[trigger] bit(done_now, i) == (bit(done, i) || (bit(bb, i) && !bit(rest, i))),
            forall|i: u64| i < 64 && #[trigger] bit(rest, i) ==> bit(bb, i),
            pins_ok(cells, c, k, done_now, *pinned_sqs, pins@),
        decreases rest,
    {
        let ghost old_rest = rest;
        let pinned_by = pop_lsb(&mut rest);
        let path = between(king_sq.0, pinned_by.0);
        let path_blockers = path & board.occ_friendly(c);
        let ghost p = pinned_by.0 as int;
        let ghost new_done = done_now | (1u64 << (p as u64));
        proof {
            assert forall|i: u64| i < 64 implies #[trigger] bit(new_done, i) == (bit(done, i) || (bit(bb, i) && !bit(rest, i))) by {
                crate::bits::lemma_bit_or_single(done_now, p as u64, i);
            }
            assert(pin_candidate(cells, c, k, p));
        }
        if path_blockers != 0 && path_blockers & (path_blockers - 1) == 0 {
            let f = pop_lsb_value(path_blockers);
            proof {
                lemma_pop_lsb(path_blockers);
                assert forall|i: u64| i < 64 implies #[trigger] bit(path_blockers, i) == (i == f.0) by {
                    lemma_bit_ops(0u64, 0u64, i);
                }
                // the piece on f is pinned by p
                assert forall|u: int| 0 <= u < 64 && #[trigger] between_spec(k, p, u) && u != f.0 implies cells[u] is None by {
                    assert(bit(path, u as u64));
                    lemma_bit_ops(path, board.color_bb(c), u as u64);
                    lemma_color_bits(*board, c, u as u64);
                    lemma_color_bits(*board, c.opposite(), u as u64);
                    assert(!bit(path_blockers, u as u64));
                }
                lemma_bit_ops(path, board.color_bb(c), f.0 as u64);
                lemma_color_bits(*board, c, f.0 as u64);
                assert(pinner(cells, c, k, p, f.0 as int));
            }
            let ghost old_pinned = *pinned_sqs;
            let ghost old_pins = pins@;
            *pinned_sqs = *pinned_sqs | path_blockers;
            pins[f.ind()] = path | pinned_by.mask();
            proof {
                let fi = f.0 as u64;
                assert forall|t: u64| t < 64 implies (bit(pins@[fi as int], t) <==> #[trigger] pin_line(k, p, t as int)) by {
                    lemma_bit_ops(path, 1u64 << (p as u64), t);
                    crate::bits::lemma_bit_or_single(0u64, p as u64, t);
                    lemma_bit_ops(0u64, 0u64, t);
                    assert((0u64 | (1u64 << (p as u64))) == (1u64 << (p as u64))) by (bit_vector);
                }
                assert forall|g: u64| g < 64 implies (#[trigger] bit(*pinned_sqs, g) <==> exists|q: u64| q < 64 && bit(new_done, q) && #[trigger] pinner(cells, c, k, q as int, g as int)) by {
                    lemma_bit_ops(old_pinned, path_blockers, g);
                    if g == fi {
                        assert(bit(new_done, p as u64));
                    }
                    if exists|q: u64| q < 64 && bit(new_done, q) && #[trigger] pinner(cells, c, k, q as int, g as int) {
                        let q = choose|q: u64| q < 64 && bit(new_done, q) && #[trigger] pinner(cells, c, k, q as int, g as int);
                        if q == p as u64 && g != fi {
                            // p pins only f: the only piece between p and the king
                            assert(between_spec(k, p, g as int) && holds(cells[g as int], c));
                            assert(cells[g as int] is None);
                        }
                        if q != p as u64 {
                            crate::bits::lemma_bit_or_single(done_now, p as u64, q);
                        }
                    }
                }
                assert forall|g: u64| g < 64 && #[trigger] bit(*pinned_sqs, g) implies exists|q: u64|
                    q < 64 && bit(new_done, q) && #[trigger] pinner(cells, c, k, q as int, g as int) && forall|t: u64|
                        t < 64 ==> (bit(pins@[g as int], t) <==> #[trigger] pin_line(k, q as int, t as int)) by {
                    lemma_bit_ops(old_pinned, path_blockers, g);
                    if g == fi {
                        assert(bit(new_done, p as u64));
                    } else {
                        assert(bit(old_pinned, g));
                        let q = choose|q: u64| q < 64 && bit(done_now, q) && #[trigger] pinner(cells, c, k, q as int, g as int) && forall|t: u64|
                            t < 64 ==> (bit(old_pins[g as int], t) <==> #[trigger] pin_line(k, q as int, t as int));
                        crate::bits::lemma_bit_or_single(done_now, p as u64, q);
                        assert(pins@[g as int] == old_pins[g as int]);
                    }
                }
                assert forall|g: u64| g < 64 && !#[trigger] bit(*pinned_sqs, g) implies pins@[g as int] == 0xFFFF_FFFF_FFFF_FFFFu64 by {
                    lemma_bit_ops(old_pinned, path_blockers, g);
                }
            }
        } else {
            proof {
                // p pins nothing: zero or several friendly pieces between
                assert forall|g: u64| g < 64 implies (#[trigger] bit(*pinned_sqs, g) <==> exists|q: u64| q < 64 && bit(new_done, q) && #[trigger] pinner(cells, c, k, q as int, g as int)) by {
                    if exists|q: u64| q < 64 && bit(new_done, q) && #[trigger] pinner(cells, c, k, q as int, g as int) {
                        let q = choose|q: u64| q < 64 && bit(new_done, q) && #[trigger] pinner(cells, c, k, q as int, g as int);
                        crate::bits::lemma_bit_or_single(done_now, p as u64, q);
                        if q == p as u64 {
                            // then the friendly pieces between are exactly g
                            assert(bit(path, g));
                            lemma_bit_ops(path, board.color_bb(c), g);
                            lemma_color_bits(*board, c, g);
                            assert(bit(path_blockers, g));
                            assert forall|i: u64| i < 64 implies #[trigger] bit(path_blockers, i) == (i == g) by {
                                lemma_bit_ops(path, board.color_bb(c), i);
                                lemma_color_bits(*board, c, i);
                            }
                            assert(path_blockers != 0);
                            lemma_pop_lsb(path_blockers);
                            assert forall|i: u64| i < 64 implies #[trigger] bit(path_blockers & ((path_blockers - 1) as u64), i) == bit(0u64, i) by {
                                lemma_bit_ops(0u64, 0u64, i);
                            }
                            lemma_bit_ext(path_blockers & ((path_blockers - 1) as u64), 0u64);
                        }
                    }
                }
                assert forall|g: u64| g < 64 && #[trigger] bit(*pinned_sqs, g) implies exists|q: u64|
                    q < 64 && bit(new_done, q) && #[trigger] pinner(cells, c, k, q as int, g as int) && forall|t: u64|
                        t < 64 ==> (bit(pins@[g as int], t) <==> #[trigger] pin_line(k, q as int, t as int)) by {
                    let q = choose|q: u64| q < 64 && bit(done_now, q) && #[trigger] pinner(cells, c, k, q as int, g as int) && forall|t: u64|
                        t < 64 ==> (bit(pins@[g as int], t) <==> #[trigger] pin_line(k, q as int, t as int));
                    crate::bits::lemma_bit_or_single(done_now, p as u64, q);
                }
            }
        }
        proof {
            done_now = new_done;
        }
    }
    proof {
        assert forall|i: u64| i < 64 implies #[trigger] bit(done_now, i) == bit(done | bb, i) by {
            lemma_bit_ops(done, bb, i);
            lemma_bit_ops(0u64, 0u64, i);
        }
        lemma_bit_ext(done_now, done | bb);
    }
}

/// The lowest square of a nonzero bitboard.
fn pop_lsb_value(bb: u64) -> (sq: Sq64)
    requires
        bb != 0,
    ensures
        sq.valid(),
        sq.0 == vstd::std_specs::bits::u64_trailing_zeros(bb),
{
    proof {
        lemma_pop_lsb(bb);
    }
    Sq64(bb.trailing_zeros() as u8)
}

/// The pinned pieces of colour `c`, and for each square the squares its piece may move
/// to without leaving a pin (every square for pieces that are not pinned).
pub open spec fn pins_final(cells: Seq<Cell>, c: Color, k: int, pinned_sqs: u64, pins: Seq<u64>) -> bool {
    &&& pins.len() == 64
    &&& forall|f: u64| f < 64 ==> (#[trigger] bit(pinned_sqs, f) <==> pinned(cells, c, k, f as int))
    &&& forall|f: u64|
        f < 64 && #[trigger] bit(pinned_sqs, f) ==> exists|p: int|
            #[trigger] pinner(cells, c, k, p, f as int) && forall|t: u64|
                t < 64 ==> (bit(pins[f as int], t) <==> #[trigger] pin_line(k, p, t as int))
    &&& forall|f: u64| f < 64 && !#[trigger] bit(pinned_sqs, f) ==> pins[f as int] == 0xFFFF_FFFF_FFFF_FFFFu64
}

proof fn lemma_candidate_bits(board: Board, c: Color, sq: Sq64, enemy_occ: u64, rat: u64, bat: u64, rook_bb: u64, bishop_bb: u64, p: u64)
    requires
        board.wf(),
        sq.valid(),
        p < 64,
        enemy_occ == board.color_bb(c.opposite()),
        forall|t: u64| t < 64 ==> (#[trigger] bit(rat, t) <==> crate::attacks::slides_to(sq.0 as int, enemy_occ, crate::attacks::ROOK_OFFSETS@, t as int)),
        forall|t: u64| t < 64 ==> (#[trigger] bit(bat, t) <==> crate::attacks::slides_to(sq.0 as int, enemy_occ, crate::attacks::BISHOP_OFFSETS@, t as int)),
        rook_bb == (board.piece_bb(c.opposite(), Piece::Rook) | board.piece_bb(c.opposite(), Piece::Queen)) & rat,
        bishop_bb == (board.piece_bb(c.opposite(), Piece::Bishop) | board.piece_bb(c.opposite(), Piece::Queen)) & bat,
    ensures
        ({
            let cells = board.cells();
            let k = sq.0 as int;
            let pi = p as int;
            let co = c.opposite();
            &&& bit(rook_bb, p) ==> pin_candidate(cells, c, k, pi)
            &&& bit(bishop_bb, p) ==> pin_candidate(cells, c, k, pi)
            &&& (rook_line(k, pi) && holds(cells[pi], co) && (kind(cells[pi]) == Piece::Rook || kind(cells[pi]) == Piece::Queen)
                && (forall|u: int| 0 <= u < 64 && #[trigger] between_spec(k, pi, u) ==> !holds(cells[u], co))) ==> bit(rook_bb, p)
            &&& (bishop_line(k, pi) && holds(cells[pi], co) && (kind(cells[pi]) == Piece::Bishop || kind(cells[pi]) == Piece::Queen)
                && (forall|u: int| 0 <= u < 64 && #[trigger] between_spec(k, pi, u) ==> !holds(cells[u], co))) ==> bit(bishop_bb, p)
        }),
{
    let cells = board.cells();
    let k = sq.0 as int;
    let pi = p as int;
    let co = c.opposite();
    lemma_bit_ops(board.piece_bb(co, Piece::Rook) | board.piece_bb(co, Piece::Queen), rat, p);
    lemma_bit_ops(board.piece_bb(co, Piece::Bishop) | board.piece_bb(co, Piece::Queen), bat, p);
    lemma_bit_ops(board.piece_bb(co, Piece::Rook), board.piece_bb(co, Piece::Queen), p);
    lemma_bit_ops(board.piece_bb(co, Piece::Bishop), board.piece_bb(co, Piece::Queen), p);
    lemma_piece_bits(board, co, Piece::Rook, p);
    lemma_piece_bits(board, co, Piece::Bishop, p);
    lemma_piece_bits(board, co, Piece::Queen, p);
    lemma_rook_slides(k, enemy_occ, pi);
    lemma_bishop_slides(k, enemy_occ, pi);
    assert forall|u: int| 0 <= u < 64 implies (bit(enemy_occ, u as u64) <==> holds(cells[u], co)) by {
        lemma_color_bits(board, co, u as u64);
    }
}

/// Finds the friendly pieces pinned to the king of colour `c` and the line each may
/// still move along.
pub fn compute_pins(board: &Board, c: Color) -> (r: (u64, [u64; 64]))
    requires
        board.wf(),
        board.has_piece(c, Piece::King),
    ensures
        pins_final(board.cells(), c, king_sq_of(*board, c), r.0, r.1@),
{
    let ghost cells = board.cells();
    let mut pins = [0xFFFF_FFFF_FFFF_FFFFu64; 64];
    let mut pinned_sqs: u64 = 0;
    let sq = board.find_king(c);
    let ghost k = sq.0 as int;
    let enemy_occ = board.occ_enemy(c);
    let rat = get_rook_moves(sq, enemy_occ);
    let rook_bb = (board.get_piece_bitboard(c.flip(), Piece::Rook) | board.get_piece_bitboard(c.flip(), Piece::Queen)) & rat;
    let bat = get_bishop_moves(sq, enemy_occ);
    let bishop_bb = (board.get_piece_bitboard(c.flip(), Piece::Bishop) | board.get_piece_bitboard(c.flip(), Piece::Queen)) & bat;
    proof {
        lemma_zero_no_bits(0u64);
        assert(pins_ok(cells, c, k, 0u64, pinned_sqs, pins@));
        assert forall|p: u64| p < 64 && #[trigger] bit(rook_bb, p) implies pin_candidate(cells, c, k, p as int) by {
            lemma_candidate_bits(*board, c, sq, enemy_occ, rat, bat, rook_bb, bishop_bb, p);
        }
        assert forall|p: u64| p < 64 && #[trigger] bit(bishop_bb, p) implies pin_candidate(cells, c, k, p as int) by {
            lemma_candidate_bits(*board, c, sq, enemy_occ, rat, bat, rook_bb, bishop_bb, p);
        }
    }
    push_pins(board, c, sq, &mut pins, &mut pinned_sqs, rook_bb, Ghost(0u64));
    push_pins(board, c, sq, &mut pins, &mut pinned_sqs, bishop_bb, Ghost(0u64 | rook_bb));
    proof {
        let done = (0u64 | rook_bb) | bishop_bb;
        assert forall|f: u64| f < 64 implies (#[trigger] bit(pinned_sqs, f) <==> pinned(cells, c, k, f as int)) by {
            if pinned(cells, c, k, f as int) {
                let p = choose|p: int| #[trigger] pinner(cells, c, k, p, f as int);
                assert forall|u: int| 0 <= u < 64 && #[trigger] between_spec(k, p, u) implies !holds(cells[u], c.opposite()) by {
                    if u != f {
                        assert(cells[u] is None);
                    }
                }
                lemma_candidate_bits(*board, c, sq, enemy_occ, rat, bat, rook_bb, bishop_bb, p as u64);
                lemma_bit_ops(0u64 | rook_bb, bishop_bb, p as u64);
                lemma_bit_ops(0u64, rook_bb, p as u64);
                assert(bit(done, p as u64));
            }
        }
        assert forall|f: u64| f < 64 && #[trigger] bit(pinned_sqs, f) implies exists|p: int|
            #[trigger] pinner(cells, c, k, p, f as int) && forall|t: u64|
                t < 64 ==> (bit(pins@[f as int], t) <==> #[trigger] pin_line(k, p, t as int)) by {
            let p = choose|p: u64| p < 64 && bit(done, p) && #[trigger] pinner(cells, c, k, p as int, f as int) && forall|t: u64|
                t < 64 ==> (bit(pins@[f as int], t) <==> #[trigger] pin_line(k, p as int, t as int));
            assert(pinner(cells, c, k, p as int, f as int));
        }
    }
    (pinned_sqs, pins)
}

/// A quiet move onto an empty square or a capture of an enemy piece, from `f`.
pub open spec fn plain_move_ok(cells: Seq<Cell>, c: Color, f: int, m: Move) -> bool {
    let to = m.to_sq().0 as int;
    &&& m.from_sq().0 == f
    &&& m.has_valid_flag()
    &&& ((m.flag() == MoveFlag::Quiet && cells[to] is None) || (m.flag() == MoveFlag::Capture
        && holds(cells[to], c.opposite())))
}

/// `moves` starts with `old` and every later move satisfies `p`.
pub open spec fn extends(moves: Seq<Move>, old: Seq<Move>, p: spec_fn(Move) -> bool) -> bool {
    &&& moves.len() >= old.len()
    &&& moves.subrange(0, old.len() as int) == old
    &&& forall|i: int| old.len() <= i < moves.len() ==> p(#[trigger] moves[i])
}

/// Two extensions in a row make one, when every move of the second kind is of the first.
pub proof fn lemma_extends_chain(
    start: Seq<Move>,
    before: Seq<Move>,
    after: Seq<Move>,
    p: spec_fn(Move) -> bool,
    q: spec_fn(Move) -> bool,
)
    requires
        extends(before, start, p),
        extends(after, before, q),
        forall|m: Move| #[trigger] q(m) ==> p(m),
    ensures
        extends(after, start, p),
{
    assert(after.subrange(0, start.len() as int) =~= start) by {
        assert forall|i: int| 0 <= i < start.len() implies after[i] == start[i] by {
            assert(after.subrange(0, before.len() as int)[i] == after[i]);
            assert(before.subrange(0, start.len() as int)[i] == before[i]);
        }
    }
    assert forall|i: int| start.len() <= i < after.len() implies p(#[trigger] after[i]) by {
        if i < before.len() {
            assert(after.subrange(0, before.len() as int)[i] == after[i]);
            assert(p(before[i]));
        } else {
            assert(q(after[i]));
        }
    }
}

/// The move from `f` to `t` with flag code `code`.
pub open spec fn packed(f: int, t: int, code: int) -> Move {
    Move((f + 64 * t + 4096 * code) as u16)
}

/// A move is the packing of its source, target and flag code.
pub proof fn lemma_packed(m: Move)
    ensures
        m == packed(m.from_sq().0 as int, m.to_sq().0 as int, crate::moves::move_code(m.0) as int),
{
    crate::moves::lemma_move_squares(m);
}

/// Pushing keeps what a sequence contains.
pub proof fn lemma_contains_push<A>(s: Seq<A>, x: A, y: A)
    ensures
        s.contains(y) ==> s.push(x).contains(y),
        s.push(x).contains(x),
{
    if s.contains(y) {
        let i = choose|i: int| 0 <= i < s.len() && s[i] == y;
        assert(s.push(x)[i] == y);
    }
    assert(s.push(x)[s.len() as int] == x);
}

/// A later list that starts with an earlier one contains what the earlier one contains.
pub proof fn lemma_contains_prefix<A>(s: Seq<A>, pre: Seq<A>, y: A)
    requires
        pre.contains(y),
        s.len() >= pre.len(),
        s.subrange(0, pre.len() as int) == pre,
    ensures
        s.contains(y),
{
    let i = choose|i: int| 0 <= i < pre.len() && pre[i] == y;
    assert(s.subrange(0, pre.len() as int)[i] == s[i]);
}

/// The moves of `moves` from index `start` on are pairwise different.
pub open spec fn distinct_after(moves: Seq<Move>, start: int) -> bool {
    forall|i: int, j: int| start <= i < moves.len() && start <= j < moves.len() && i != j ==> moves[i] != moves[j]
}

/// Adds a quiet move to each empty square and a capture to each enemy-occupied square
/// of `destination_squares` (squares of colour `c` are skipped).
pub fn generate_moves_to_bb(board: &Board, from_sq: Sq64, destination_squares: u64, c: Color, moves: &mut Vec<Move>)
    requires
        board.wf(),
        from_sq.valid(),
    ensures
        extends(final(moves)@, old(moves)@, |m: Move| plain_move_ok(board.cells(), c, from_sq.0 as int, m)
            && bit(destination_squares, m.to_sq().0 as u64)),
        forall|m: Move|
            plain_move_ok(board.cells(), c, from_sq.0 as int, m) && bit(destination_squares, m.to_sq().0 as u64)
                ==> #[trigger] final(moves)@.contains(m),
        distinct_after(final(moves)@, old(moves)@.len() as int),
{
    let ghost cells = board.cells();
    let ghost start = moves@;
    let ghost f = from_sq.0 as int;
    let non_blocked = destination_squares & !board.occ_friendly(c);
    let mut quiet = non_blocked & !board.occ_enemy(c);
    let ghost quiet0 = quiet;
    proof {
        assert(moves@.subrange(0, start.len() as int) =~= start);
        assert forall|i: u64| i < 64 implies (#[trigger] bit(quiet, i) <==> (bit(destination_squares, i) && cells[i as int] is None)) by {
            lemma_bit_ops(non_blocked, !board.color_bb(c.opposite()), i);
            lemma_bit_ops(destination_squares, !board.color_bb(c), i);
            lemma_bit_ops(board.color_bb(c), board.color_bb(c), i);
            lemma_bit_ops(board.color_bb(c.opposite()), board.color_bb(c), i);
            lemma_color_bits(*board, c, i);
            lemma_color_bits(*board, c.opposite(), i);
            if cells[i as int] is Some {
                assert(cells[i as int].unwrap().0 == c || cells[i as int].unwrap().0 == c.opposite());
            }
        }
    }
    while quiet != 0
        invariant
            board.wf(),
            cells == board.cells(),
            from_sq.valid(),
            f == from_sq.0,
            forall|i: u64| i < 64 && #[trigger] bit(quiet, i) ==> bit(quiet0, i),
            forall|i: u64| i < 64 ==> (#[trigger] bit(quiet0, i) <==> (bit(destination_squares, i) && cells[i as int] is None)),
            forall|i: u64| i < 64 && #[trigger] bit(quiet0, i) && !bit(quiet, i) ==> moves@.contains(packed(f, i as int, 0)),
            extends(moves@, start, |m: Move| plain_move_ok(cells, c, from_sq.0 as int, m) && bit(destination_squares, m.to_sq().0 as u64)),
            distinct_after(moves@, start.len() as int),
            forall|i: int| start.len() <= i < moves@.len() ==> (#[trigger] moves@[i]).flag() == MoveFlag::Quiet && !bit(quiet, moves@[i].to_sq().0 as u64),
        decreases quiet,
    {
        let ghost q0 = quiet;
        let ghost m0 = moves@;
        let to = pop_lsb(&mut quiet);
        proof {
            assert(bit(q0, to.0 as u64));
        }
        let m = Move::new(from_sq, to);
        moves.push(m);
        proof {
            assert(moves@.subrange(0, start.len() as int) =~= start);
            assert forall|i: int| start.len() <= i < moves@.len() implies (#[trigger] moves@[i]).flag() == MoveFlag::Quiet && !bit(quiet, moves@[i].to_sq().0 as u64) by {
                if i < m0.len() {
                    assert(moves@[i] == m0[i]);
                    crate::moves::lemma_move_squares(m0[i]);
                }
            }
            assert forall|i: int, j: int| start.len() <= i < moves@.len() && start.len() <= j < moves@.len() && i != j implies moves@[i] != moves@[j] by {
                if i < m0.len() && j < m0.len() {
                    assert(moves@[i] == m0[i] && moves@[j] == m0[j]);
                } else if i < m0.len() {
                    assert(moves@[i] == m0[i]);
                    crate::moves::lemma_move_squares(m0[i]);
                    assert(!bit(q0, m0[i].to_sq().0 as u64));
                } else if j < m0.len() {
                    assert(moves@[j] == m0[j]);
                    crate::moves::lemma_move_squares(m0[j]);
                    assert(!bit(q0, m0[j].to_sq().0 as u64));
                }
            }
            lemma_packed(m);
            assert(m == packed(f, to.0 as int, 0));
            assert forall|i: u64| i < 64 && #[trigger] bit(quiet0, i) && !bit(quiet, i) implies moves@.contains(packed(f, i as int, 0)) by {
                if i == to.0 {
                    lemma_contains_push(m0, m, m);
                } else {
                    lemma_contains_push(m0, m, packed(f, i as int, 0));
                }
            }
        }
    }
    let ghost after_quiet = moves@;
    proof {
        assert forall|i: int| start.len() <= i < moves@.len() implies (#[trigger] moves@[i]).flag() == MoveFlag::Quiet by {}
    }
    let mut capt = non_blocked & board.occ_enemy(c);
    let ghost capt0 = capt;
    proof {
        assert forall|i: u64| i < 64 implies (#[trigger] bit(capt, i) <==> (bit(destination_squares, i) && holds(cells[i as int], c.opposite()))) by {
            lemma_bit_ops(non_blocked, board.color_bb(c.opposite()), i);
            lemma_bit_ops(destination_squares, !board.color_bb(c), i);
            lemma_bit_ops(board.color_bb(c), board.color_bb(c), i);
            lemma_color_bits(*board, c.opposite(), i);
            lemma_color_bits(*board, c, i);
            if cells[i as int] is Some {
                assert(cells[i as int].unwrap().0 == c || cells[i as int].unwrap().0 == c.opposite());
            }
        }
        assert(moves@.subrange(0, after_quiet.len() as int) =~= after_quiet);
    }
    while capt != 0
        invariant
            board.wf(),
            cells == board.cells(),
            from_sq.valid(),
            f == from_sq.0,
            forall|i: u64| i < 64 && #[trigger] bit(capt, i) ==> bit(capt0, i),
            forall|i: u64| i < 64 ==> (#[trigger] bit(capt0, i) <==> (bit(destination_squares, i) && holds(cells[i as int], c.opposite()))),
            forall|i: u64| i < 64 && #[trigger] bit(capt0, i) && !bit(capt, i) ==> moves@.contains(packed(f, i as int, 4)),
            moves@.len() >= after_quiet.len(),
            moves@.subrange(0, after_quiet.len() as int) == after_quiet,
            extends(moves@, start, |m: Move| plain_move_ok(cells, c, from_sq.0 as int, m) && bit(destination_squares, m.to_sq().0 as u64)),
            distinct_after(moves@, start.len() as int),
            forall|i: int| start.len() <= i < moves@.len() ==> (#[trigger] moves@[i]).flag() == MoveFlag::Quiet || !bit(capt, moves@[i].to_sq().0 as u64),
        decreases capt,
    {
        let ghost q0 = capt;
        let ghost m0 = moves@;
        let to = pop_lsb(&mut capt);
        proof {
            assert(bit(q0, to.0 as u64));
        }
        let m = Move::new_flags(from_sq, to, MoveFlag::Capture);
        moves.push(m);
        proof {
            assert(moves@.subrange(0, start.len() as int) =~= start);
            assert(moves@.subrange(0, after_quiet.len() as int) =~= after_quiet);
            assert forall|i: int| start.len() <= i < moves@.len() implies (#[trigger] moves@[i]).flag() == MoveFlag::Quiet || !bit(capt, moves@[i].to_sq().0 as u64) by {
                if i < m0.len() {
                    assert(moves@[i] == m0[i]);
                    crate::moves::lemma_move_squares(m0[i]);
                }
            }
            assert forall|i: int, j: int| start.len() <= i < moves@.len() && start.len() <= j < moves@.len() && i != j implies moves@[i] != moves@[j] by {
                if i < m0.len() && j < m0.len() {
                    assert(moves@[i] == m0[i] && moves@[j] == m0[j]);
                } else if i < m0.len() {
                    assert(moves@[i] == m0[i]);
                    crate::moves::lemma_move_squares(m0[i]);
                } else if j < m0.len() {
                    assert(moves@[j] == m0[j]);
                    crate::moves::lemma_move_squares(m0[j]);
                }
            }
            lemma_packed(m);
            assert(m == packed(f, to.0 as int, 4));
            assert forall|i: u64| i < 64 && #[trigger] bit(capt0, i) && !bit(capt, i) implies moves@.contains(packed(f, i as int, 4)) by {
                if i == to.0 {
                    lemma_contains_push(m0, m, m);
                } else {
                    lemma_contains_push(m0, m, packed(f, i as int, 4));
                }
            }
        }
    }
    proof {
        assert forall|m: Move|
            plain_move_ok(cells, c, f, m) && bit(destination_squares, m.to_sq().0 as u64) implies #[trigger] moves@.contains(m) by {
            let t = m.to_sq().0 as u64;
            crate::moves::lemma_move_squares(m);
            lemma_packed(m);
            if m.flag() == MoveFlag::Quiet {
                assert(bit(quiet0, t));
                assert(!bit(quiet, t)) by {
                    lemma_bit_ops(0u64, 0u64, t);
                }
                assert(after_quiet.contains(packed(f, t as int, 0)));
                lemma_contains_prefix(moves@, after_quiet, m);
            } else {
                assert(bit(capt0, t));
                assert(!bit(capt, t)) by {
                    lemma_bit_ops(0u64, 0u64, t);
                }
            }
        }
    }
}

/// Adds the moves of the piece on `from_sq` to the squares of its entry in the attack
/// table `attacks` that do not hold a piece of colour `c`: a capture on each enemy
/// piece, a quiet move on each empty square.
pub fn generate_direct_moves(board: &Board, from_sq: Sq64, attacks: [u64; 64], c: Color, moves: &mut Vec<Move>)
    requires
        board.wf(),
        from_sq.valid(),
    ensures
        extends(final(moves)@, old(moves)@, |m: Move| plain_move_ok(board.cells(), c, from_sq.0 as int, m)
            && bit(attacks[from_sq.0 as int], m.to_sq().0 as u64)),
        forall|m: Move|
            plain_move_ok(board.cells(), c, from_sq.0 as int, m) && bit(attacks[from_sq.0 as int], m.to_sq().0 as u64)
                ==> #[trigger] final(moves)@.contains(m),
        distinct_after(final(moves)@, old(moves)@.len() as int),
{
    generate_moves_to_bb(board, from_sq, attacks[from_sq.0 as usize], c, moves);
}

/// Adds the knight moves from `from_sq` to squares of `valid_destinations`.
pub fn generate_knight_moves(board: &Board, from_sq: Sq64, color: Color, moves: &mut Vec<Move>, valid_destinations: u64)
    requires
        board.wf(),
        from_sq.valid(),
        board.cells()[from_sq.0 as int] == Some((color, Piece::Knight)),
    ensures
        extends(final(moves)@, old(moves)@, |m: Move| plain_move_ok(board.cells(), color, from_sq.0 as int, m)
            && attacks_sq(board.cells(), from_sq.0 as int, m.to_sq().0 as int)
            && bit(valid_destinations, m.to_sq().0 as u64)),
        forall|m: Move|
            plain_move_ok(board.cells(), color, from_sq.0 as int, m) && attacks_sq(board.cells(), from_sq.0 as int, m.to_sq().0 as int)
                && bit(valid_destinations, m.to_sq().0 as u64) ==> #[trigger] final(moves)@.contains(m),
        distinct_after(final(moves)@, old(moves)@.len() as int),
{
    let kat = knight_attacks(from_sq);
    let bb = kat & valid_destinations;
    let ghost start = moves@;
    generate_moves_to_bb(board, from_sq, bb, color, moves);
    proof {
        let cells = board.cells();
        assert forall|m: Move|
            plain_move_ok(cells, color, from_sq.0 as int, m) && attacks_sq(cells, from_sq.0 as int, m.to_sq().0 as int)
                && bit(valid_destinations, m.to_sq().0 as u64) implies #[trigger] moves@.contains(m) by {
            let t = m.to_sq().0 as u64;
            crate::moves::lemma_move_squares(m);
            lemma_knight_rel(from_sq.0 as int, t as int);
            lemma_bit_ops(kat, valid_destinations, t);
            assert(bit(bb, t));
        }
        assert forall|i: int| start.len() <= i < moves@.len() implies plain_move_ok(cells, color, from_sq.0 as int, #[trigger] moves@[i])
            && attacks_sq(cells, from_sq.0 as int, moves@[i].to_sq().0 as int)
            && bit(valid_destinations, moves@[i].to_sq().0 as u64) by {
            let m = moves@[i];
            let t = m.to_sq().0 as u64;
            crate::moves::lemma_move_squares(m);
            assert(plain_move_ok(cells, color, from_sq.0 as int, m) && bit(bb, t));
            lemma_bit_ops(kat, valid_destinations, t);
            lemma_knight_rel(from_sq.0 as int, t as int);
            assert(knight_rel(from_sq.0 as int, t as int));
            assert(bit(valid_destinations, t));
        }
    }
}

/// Adds the moves of a rook (`p` Rook) or bishop (`p` Bishop) on `sq`, or of a queen
/// moving like one, to squares of `valid_destinations`.
pub fn generate_sliding_moves(board: &Board, sq: Sq64, c: Color, moves: &mut Vec<Move>, p: Piece, valid_destinations: u64)
    requires
        board.wf(),
        sq.valid(),
        p == Piece::Rook || p == Piece::Bishop,
        board.cells()[sq.0 as int] == Some((c, p)) || board.cells()[sq.0 as int] == Some((c, Piece::Queen)),
    ensures
        extends(final(moves)@, old(moves)@, |m: Move| plain_move_ok(board.cells(), c, sq.0 as int, m)
            && attacks_sq(board.cells(), sq.0 as int, m.to_sq().0 as int)
            && bit(valid_destinations, m.to_sq().0 as u64)),
        forall|m: Move|
            plain_move_ok(board.cells(), c, sq.0 as int, m) && piece_attacks(
                p,
                c,
                sq.0 as int,
                m.to_sq().0 as int,
                empty_between(board.cells(), sq.0 as int, m.to_sq().0 as int),
            ) && bit(valid_destinations, m.to_sq().0 as u64) ==> #[trigger] final(moves)@.contains(m),
        distinct_after(final(moves)@, old(moves)@.len() as int),
        forall|i: int|
            old(moves)@.len() <= i < final(moves)@.len() ==> piece_attacks(
                p,
                c,
                sq.0 as int,
                (#[trigger] final(moves)@[i]).to_sq().0 as int,
                empty_between(board.cells(), sq.0 as int, final(moves)@[i].to_sq().0 as int),
            ),
{
    let att = match p {
        Piece::Rook => get_rook_moves(sq, board.occ()),
        _ => get_bishop_moves(sq, board.occ()),
    };
    let bb = att & valid_destinations;
    let ghost start = moves@;
    generate_moves_to_bb(board, sq, bb, c, moves);
    proof {
        let cells = board.cells();
        assert forall|m: Move|
            plain_move_ok(cells, c, sq.0 as int, m) && piece_attacks(
                p,
                c,
                sq.0 as int,
                m.to_sq().0 as int,
                empty_between(cells, sq.0 as int, m.to_sq().0 as int),
            ) && bit(valid_destinations, m.to_sq().0 as u64) implies #[trigger] moves@.contains(m) by {
            let t = m.to_sq().0 as u64;
            crate::moves::lemma_move_squares(m);
            lemma_bit_ops(att, valid_destinations, t);
            lemma_rook_slides(sq.0 as int, board.all_bb(), t as int);
            lemma_bishop_slides(sq.0 as int, board.all_bb(), t as int);
            lemma_path_clear_cells(*board, sq.0 as int, t as int);
            assert(bit(bb, t));
        }
        assert forall|i: int|
            start.len() <= i < moves@.len() implies piece_attacks(
            p,
            c,
            sq.0 as int,
            (#[trigger] moves@[i]).to_sq().0 as int,
            empty_between(cells, sq.0 as int, moves@[i].to_sq().0 as int),
        ) by {
            let m = moves@[i];
            let t = m.to_sq().0 as u64;
            crate::moves::lemma_move_squares(m);
            lemma_bit_ops(att, valid_destinations, t);
            lemma_rook_slides(sq.0 as int, board.all_bb(), t as int);
            lemma_bishop_slides(sq.0 as int, board.all_bb(), t as int);
            lemma_path_clear_cells(*board, sq.0 as int, t as int);
        }
        assert forall|i: int| start.len() <= i < moves@.len() implies plain_move_ok(cells, c, sq.0 as int, #[trigger] moves@[i])
            && attacks_sq(cells, sq.0 as int, moves@[i].to_sq().0 as int)
            && bit(valid_destinations, moves@[i].to_sq().0 as u64) by {
            let m = moves@[i];
            let t = m.to_sq().0 as u64;
            crate::moves::lemma_move_squares(m);
            lemma_bit_ops(att, valid_destinations, t);
            lemma_rook_slides(sq.0 as int, board.all_bb(), t as int);
            lemma_bishop_slides(sq.0 as int, board.all_bb(), t as int);
            lemma_path_clear_cells(*board, sq.0 as int, t as int);
        }
    }
}

/// The occupancy without the king of colour `c`.
pub open spec fn occ_without_king(b: Board, c: Color) -> u64 {
    b.all_bb() & !b.piece_bb(c, Piece::King)
}

/// A king move from `f` to a neighbouring square that no enemy piece attacks once the
/// king has left `f`.
pub open spec fn king_step_ok(b: Board, c: Color, f: int, m: Move) -> bool {
    &&& plain_move_ok(b.cells(), c, f, m)
    &&& king_rel(f, m.to_sq().0 as int)
    &&& !attacked_occ(b.cells(), occ_without_king(b, c), m.to_sq().0 as int, c.opposite())
}

/// Adds the moves of the king on `from_sq` to squares not attacked by the enemy.
pub fn generate_king_moves(board: &Board, from_sq: Sq64, color: Color, moves: &mut Vec<Move>)
    requires
        board.wf(),
        from_sq.valid(),
    ensures
        extends(final(moves)@, old(moves)@, |m: Move| king_step_ok(*board, color, from_sq.0 as int, m)),
        forall|m: Move| king_step_ok(*board, color, from_sq.0 as int, m) ==> #[trigger] final(moves)@.contains(m),
        distinct_after(final(moves)@, old(moves)@.len() as int),
{
    let ghost cells = board.cells();
    let ghost start = moves@;
    let ghost f = from_sq.0 as int;
    let gat = king_attacks(from_sq);
    let bb = gat & !board.occ_friendly(color);
    proof {
        assert(moves@.subrange(0, start.len() as int) =~= start);
        assert forall|i: u64| i < 64 && king_rel(f, i as int) && !holds(cells[i as int], color) implies #[trigger] bit(bb, i) by {
            lemma_bit_ops(gat, !board.color_bb(color), i);
            lemma_bit_ops(board.color_bb(color), board.color_bb(color), i);
            lemma_color_bits(*board, color, i);
            lemma_king_rel(f, i as int);
        }
    }
    if bb == 0 {
        proof {
            assert forall|m: Move| king_step_ok(*board, color, f, m) implies #[trigger] moves@.contains(m) by {
                let t = m.to_sq().0 as u64;
                crate::moves::lemma_move_squares(m);
                lemma_bit_ops(0u64, 0u64, t);
                assert(bit(bb, t));
            }
        }
        return;
    }
    let occ_no_king = board.occ() & !board.get_piece_bitboard(color, Piece::King);
    let mut cbb = bb & board.occ_enemy(color);
    let mut qbb = bb & !board.occ_enemy(color);
    let ghost cbb0 = cbb;
    let ghost qbb0 = qbb;
    proof {
        assert forall|i: u64| i < 64 implies (#[trigger] bit(qbb, i) <==> (king_rel(f, i as int) && cells[i as int] is None)) by {
            lemma_bit_ops(bb, !board.color_bb(color.opposite()), i);
            lemma_bit_ops(gat, !board.color_bb(color), i);
            lemma_bit_ops(board.color_bb(color), board.color_bb(color), i);
            lemma_bit_ops(board.color_bb(color.opposite()), board.color_bb(color), i);
            lemma_color_bits(*board, color, i);
            lemma_color_bits(*board, color.opposite(), i);
            lemma_king_rel(f, i as int);
            if cells[i as int] is Some {
                assert(cells[i as int].unwrap().0 == color || cells[i as int].unwrap().0 == color.opposite());
            }
        }
        assert forall|i: u64| i < 64 implies (#[trigger] bit(cbb, i) <==> (king_rel(f, i as int) && holds(cells[i as int], color.opposite()))) by {
            lemma_bit_ops(bb, board.color_bb(color.opposite()), i);
            lemma_bit_ops(gat, !board.color_bb(color), i);
            lemma_bit_ops(board.color_bb(color), board.color_bb(color), i);
            lemma_color_bits(*board, color.opposite(), i);
            lemma_color_bits(*board, color, i);
            lemma_king_rel(f, i as int);
            if cells[i as int] is Some {
                assert(cells[i as int].unwrap().0 == color || cells[i as int].unwrap().0 == color.opposite());
            }
        }
    }
    while qbb != 0
        invariant
            board.wf(),
            cells == board.cells(),
            from_sq.valid(),
            f == from_sq.0,
            occ_no_king == occ_without_king(*board, color),
            forall|i: u64| i < 64 && #[trigger] bit(qbb, i) ==> bit(qbb0, i),
            forall|i: u64| i < 64 ==> (#[trigger] bit(qbb0, i) <==> (king_rel(f, i as int) && cells[i as int] is None)),
            forall|i: u64|
                i < 64 && #[trigger] bit(qbb0, i) && !bit(qbb, i) && !attacked_occ(cells, occ_no_king, i as int, color.opposite())
                    ==> moves@.contains(packed(f, i as int, 0)),
            extends(moves@, start, |m: Move| king_step_ok(*board, color, from_sq.0 as int, m)),
            distinct_after(moves@, start.len() as int),
            forall|i: int| start.len() <= i < moves@.len() ==> (#[trigger] moves@[i]).flag() == MoveFlag::Quiet && !bit(qbb, moves@[i].to_sq().0 as u64),
        decreases qbb,
    {
        let ghost q0 = qbb;
        let ghost m0 = moves@;
        let to_sq = pop_lsb(&mut qbb);
        proof {
            assert(bit(q0, to_sq.0 as u64));
        }
        if !is_attacked(board, to_sq, color.flip(), occ_no_king) {
            let m = Move::new(from_sq, to_sq);
            moves.push(m);
            proof {
                assert(moves@.subrange(0, start.len() as int) =~= start);
                lemma_packed(m);
                lemma_contains_push(m0, m, m);
                assert forall|i: int, j: int| start.len() <= i < moves@.len() && start.len() <= j < moves@.len() && i != j implies moves@[i] != moves@[j] by {
                    if i < m0.len() && j < m0.len() {
                        assert(moves@[i] == m0[i] && moves@[j] == m0[j]);
                    } else if i < m0.len() {
                        assert(moves@[i] == m0[i]);
                        crate::moves::lemma_move_squares(m0[i]);
                        assert(!bit(q0, m0[i].to_sq().0 as u64));
                    } else if j < m0.len() {
                        assert(moves@[j] == m0[j]);
                        crate::moves::lemma_move_squares(m0[j]);
                        assert(!bit(q0, m0[j].to_sq().0 as u64));
                    }
                }
            }
        }
        proof {
            assert forall|i: int| start.len() <= i < moves@.len() implies (#[trigger] moves@[i]).flag() == MoveFlag::Quiet && !bit(qbb, moves@[i].to_sq().0 as u64) by {
                if i < m0.len() {
                    assert(moves@[i] == m0[i]);
                    crate::moves::lemma_move_squares(m0[i]);
                }
            }
            assert forall|i: u64|
                i < 64 && #[trigger] bit(qbb0, i) && !bit(qbb, i) && !attacked_occ(cells, occ_no_king, i as int, color.opposite())
                    implies moves@.contains(packed(f, i as int, 0)) by {
                if i != to_sq.0 && moves@ != m0 {
                    lemma_contains_push(m0, moves@.last(), packed(f, i as int, 0));
                    assert(moves@ =~= m0.push(moves@.last()));
                }
            }
        }
    }
    let ghost after_quiet = moves@;
    proof {
        assert(moves@.subrange(0, after_quiet.len() as int) =~= after_quiet);
        assert forall|i: int| start.len() <= i < moves@.len() implies (#[trigger] moves@[i]).flag() == MoveFlag::Quiet by {}
    }
    while cbb != 0
        invariant
            board.wf(),
            cells == board.cells(),
            from_sq.valid(),
            f == from_sq.0,
            occ_no_king == occ_without_king(*board, color),
            forall|i: u64| i < 64 && #[trigger] bit(cbb, i) ==> bit(cbb0, i),
            forall|i: u64| i < 64 ==> (#[trigger] bit(cbb0, i) <==> (king_rel(f, i as int) && holds(cells[i as int], color.opposite()))),
            forall|i: u64|
                i < 64 && #[trigger] bit(cbb0, i) && !bit(cbb, i) && !attacked_occ(cells, occ_no_king, i as int, color.opposite())
                    ==> moves@.contains(packed(f, i as int, 4)),
            moves@.len() >= after_quiet.len(),
            moves@.subrange(0, after_quiet.len() as int) == after_quiet,
            extends(moves@, start, |m: Move| king_step_ok(*board, color, from_sq.0 as int, m)),
            distinct_after(moves@, start.len() as int),
            forall|i: int| start.len() <= i < moves@.len() ==> (#[trigger] moves@[i]).flag() == MoveFlag::Quiet || !bit(cbb, moves@[i].to_sq().0 as u64),
        decreases cbb,
    {
        let ghost q0 = cbb;
        let ghost m0 = moves@;
        let to_sq = pop_lsb(&mut cbb);
        proof {
            assert(bit(q0, to_sq.0 as u64));
        }
        if !is_attacked(board, to_sq, color.flip(), occ_no_king) {
            let m = Move::new_flags(from_sq, to_sq, MoveFlag::Capture);
            moves.push(m);
            proof {
                assert(moves@.subrange(0, start.len() as int) =~= start);
                assert(moves@.subrange(0, after_quiet.len() as int) =~= after_quiet);
                lemma_packed(m);
                lemma_contains_push(m0, m, m);
                assert forall|i: int, j: int| start.len() <= i < moves@.len() && start.len() <= j < moves@.len() && i != j implies moves@[i] != moves@[j] by {
                    if i < m0.len() && j < m0.len() {
                        assert(moves@[i] == m0[i] && moves@[j] == m0[j]);
                    } else if i < m0.len() {
                        assert(moves@[i] == m0[i]);
                        crate::moves::lemma_move_squares(m0[i]);
                    } else if j < m0.len() {
                        assert(moves@[j] == m0[j]);
                        crate::moves::lemma_move_squares(m0[j]);
                    }
                }
            }
        }
        proof {
            assert forall|i: int| start.len() <= i < moves@.len() implies (#[trigger] moves@[i]).flag() == MoveFlag::Quiet || !bit(cbb, moves@[i].to_sq().0 as u64) by {
                if i < m0.len() {
                    assert(moves@[i] == m0[i]);
                    crate::moves::lemma_move_squares(m0[i]);
                }
            }
            assert forall|i: u64|
                i < 64 && #[trigger] bit(cbb0, i) && !bit(cbb, i) && !attacked_occ(cells, occ_no_king, i as int, color.opposite())
                    implies moves@.contains(packed(f, i as int, 4)) by {
                if i != to_sq.0 && moves@ != m0 {
                    lemma_contains_push(m0, moves@.last(), packed(f, i as int, 4));
                    assert(moves@ =~= m0.push(moves@.last()));
                }
            }
        }
    }
    proof {
        assert forall|m: Move| king_step_ok(*board, color, f, m) implies #[trigger] moves@.contains(m) by {
            let t = m.to_sq().0 as u64;
            crate::moves::lemma_move_squares(m);
            lemma_packed(m);
            lemma_bit_ops(0u64, 0u64, t);
            lemma_king_rel(f, t as int);
            if m.flag() == MoveFlag::Quiet {
                assert(bit(qbb0, t));
                assert(after_quiet.contains(packed(f, t as int, 0)));
                lemma_contains_prefix(moves@, after_quiet, m);
            } else {
                assert(bit(cbb0, t));
            }
        }
    }
}

/// A castling move for colour `c` with the king on `f`: the right is held, the squares
/// between king and rook are empty and the squares the king crosses and reaches are not
/// attacked.
pub open spec fn castle_move_ok(b: Board, si: StateInfo, c: Color, f: int, m: Move) -> bool {
    let cells = b.cells();
    let to = m.to_sq().0 as int;
    &&& m.from_sq().0 == f
    &&& m.has_valid_flag()
    &&& (m.flag() == MoveFlag::CastleKingside ==> {
        &&& to == f + 2
        &&& (si.castle_rights >> crate::state_info::castle_offset(c, true)) & 1u8 == 1u8
        &&& cells[f + 1] is None && cells[f + 2] is None
        &&& !attacked_occ(cells, b.all_bb(), f + 1, c.opposite())
        &&& !attacked_occ(cells, b.all_bb(), f + 2, c.opposite())
    })
    &&& (m.flag() == MoveFlag::CastleQueenside ==> {
        &&& to == f - 2
        &&& (si.castle_rights >> crate::state_info::castle_offset(c, false)) & 1u8 == 1u8
        &&& cells[f - 1] is None && cells[f - 2] is None && cells[f - 3] is None
        &&& !attacked_occ(cells, b.all_bb(), f - 1, c.opposite())
        &&& !attacked_occ(cells, b.all_bb(), f - 2, c.opposite())
    })
    &&& (m.flag() == MoveFlag::CastleKingside || m.flag() == MoveFlag::CastleQueenside)
}

/// The king of colour `c` stands on its starting square whenever a castling right of
/// `c` is held.
pub open spec fn castle_squares_ok(si: StateInfo, c: Color, f: int) -> bool {
    &&& ((si.castle_rights >> crate::state_info::castle_offset(c, true)) & 1u8 == 1u8 ==> 0 <= f && f + 2 < 64)
    &&& ((si.castle_rights >> crate::state_info::castle_offset(c, false)) & 1u8 == 1u8 ==> 3 <= f < 64)
}

/// The castling moves of the king of colour `c` on `f` that `castle_move_ok` allows,
/// kingside first.
pub open spec fn castle_list(b: Board, si: StateInfo, c: Color, f: int) -> Seq<Move> {
    let ks = packed(f, f + 2, 2);
    let qs = packed(f, f - 2, 3);
    (if castle_move_ok(b, si, c, f, ks) {
        seq![ks]
    } else {
        Seq::empty()
    }) + (if castle_move_ok(b, si, c, f, qs) {
        seq![qs]
    } else {
        Seq::empty()
    })
}

/// Adds the castling moves of the king of colour `c` on `from_sq`, kingside first.
pub fn generate_castles(board: &Board, from_sq: Sq64, c: Color, moves: &mut Vec<Move>, state_info: &StateInfo)
    requires
        board.wf(),
        from_sq.valid(),
        castle_squares_ok(*state_info, c, from_sq.0 as int),
    ensures
        extends(final(moves)@, old(moves)@, |m: Move| castle_move_ok(*board, *state_info, c, from_sq.0 as int, m)),
        forall|m: Move| castle_move_ok(*board, *state_info, c, from_sq.0 as int, m) ==> #[trigger] final(moves)@.contains(m),
        distinct_after(final(moves)@, old(moves)@.len() as int),
        final(moves)@ == old(moves)@ + castle_list(*board, *state_info, c, from_sq.0 as int),
{
    let ghost cells = board.cells();
    let ghost start = moves@;
    let ghost f = from_sq.0 as int;
    let ghost x = board.all_bb();
    let ghost s = from_sq.0 as u64;
    proof {
        assert(moves@.subrange(0, start.len() as int) =~= start);
    }
    let mut king_side: Option<Move> = None;
    if state_info.has_castle_rights(c, true) {
        let path_unoccupied = (board.occ() & (0b110u64 << from_sq.0)) == 0;
        proof {
            assert(s + 2 < 64 ==> ((x & (0b110u64 << s)) == 0 <==> (!bit(x, (s + 1) as u64) && !bit(x, (s + 2) as u64)))) by (bit_vector);
            assert(bit(x, (s + 1) as u64) <==> cells[f + 1] is Some);
            assert(bit(x, (s + 2) as u64) <==> cells[f + 2] is Some);
        }
        if path_unoccupied && !is_attacked(board, from_sq.offset(1), c.flip(), board.occ())
            && !is_attacked(board, from_sq.offset(2), c.flip(), board.occ()) {
            let to_sq = from_sq.offset(2);
            let m = Move::new_flags(from_sq, to_sq, MoveFlag::CastleKingside);
            moves.push(m);
            king_side = Some(m);
            proof {
                assert(moves@.subrange(0, start.len() as int) =~= start);
                lemma_packed(m);
                lemma_contains_push(start, m, m);
            }
        }
    }
    let ghost mid = moves@;
    proof {
        assert(moves@.subrange(0, mid.len() as int) =~= mid);
        let ks = packed(f, f + 2, 2);
        lemma_packed(ks);
        crate::moves::lemma_move_squares(ks);
        if castle_move_ok(*board, *state_info, c, f, ks) {
            assert(mid =~= start.push(ks));
        } else {
            assert(mid =~= start);
        }
    }
    if state_info.has_castle_rights(c, false) {
        let path_unoccupied = (board.occ() & (0b111u64 << (from_sq.0 - 3))) == 0;
        proof {
            assert(3 <= s < 64 ==> ((x & (0b111u64 << ((s - 3) as u64))) == 0 <==> (!bit(x, (s - 1) as u64) && !bit(x, (s - 2) as u64) && !bit(x, (s - 3) as u64)))) by (bit_vector);
            assert(bit(x, (s - 1) as u64) <==> cells[f - 1] is Some);
            assert(bit(x, (s - 2) as u64) <==> cells[f - 2] is Some);
            assert(bit(x, (s - 3) as u64) <==> cells[f - 3] is Some);
        }
        if path_unoccupied && !is_attacked(board, from_sq.offset(-1), c.flip(), board.occ())
            && !is_attacked(board, from_sq.offset(-2), c.flip(), board.occ()) {
            let to_sq = from_sq.offset(-2);
            let m = Move::new_flags(from_sq, to_sq, MoveFlag::CastleQueenside);
            moves.push(m);
            proof {
                assert(moves@.subrange(0, start.len() as int) =~= start);
                assert(moves@[moves@.len() - 1].flag() == MoveFlag::CastleQueenside);
                assert(moves@.subrange(0, mid.len() as int) =~= mid);
                assert forall|i: int| start.len() <= i < mid.len() implies mid[i].flag() == MoveFlag::CastleKingside by {}
                assert forall|i: int, j: int| start.len() <= i < moves@.len() && start.len() <= j < moves@.len() && i != j implies moves@[i] != moves@[j] by {
                    if i < mid.len() {
                        assert(moves@[i] == mid[i]);
                    }
                    if j < mid.len() {
                        assert(moves@[j] == mid[j]);
                    }
                }
                lemma_packed(m);
                lemma_contains_push(mid, m, m);
                if mid.contains(packed(f, f + 2, 2)) {
                    lemma_contains_push(mid, m, packed(f, f + 2, 2));
                }
            }
        }
    }
    proof {
        let ks = packed(f, f + 2, 2);
        let qs = packed(f, f - 2, 3);
        lemma_packed(qs);
        crate::moves::lemma_move_squares(qs);
        if castle_move_ok(*board, *state_info, c, f, qs) {
            assert(moves@ =~= mid.push(qs));
        } else {
            assert(moves@ =~= mid);
        }
        assert(moves@ =~= start + castle_list(*board, *state_info, c, f));
        assert forall|m: Move| castle_move_ok(*board, *state_info, c, f, m) implies #[trigger] moves@.contains(m) by {
            crate::moves::lemma_move_squares(m);
            lemma_packed(m);
            if m.flag() == MoveFlag::CastleKingside {
                assert(m == packed(f, f + 2, 2));
                assert(mid.contains(m));
                lemma_contains_prefix(moves@, mid, m);
            } else {
                assert(m == packed(f, f - 2, 3));
            }
        }
    }
}

/// The square `n` ranks ahead of `sq` for a pawn of colour `c`.
pub open spec fn fwd(c: Color, sq: int, n: int) -> int {
    match c {
        Color::White => sq + 8 * n,
        Color::Black => sq - 8 * n,
    }
}

/// Squares on the first or the last rank.
pub open spec fn last_rank(sq: int) -> bool {
    sq < 8 || sq >= 56
}

/// The rank pawns of colour `c` start on.
pub open spec fn start_rank(c: Color, sq: int) -> bool {
    match c {
        Color::White => 8 <= sq < 16,
        Color::Black => 48 <= sq < 56,
    }
}

/// A pawn move from `f` other than en passant: a push onto an empty square, a double
/// push from the starting rank over an empty square, or a diagonal capture; moves
/// reaching the last rank promote, the others do not.
pub open spec fn pawn_move_ok(cells: Seq<Cell>, c: Color, f: int, m: Move, valid: u64) -> bool {
    let t = m.to_sq().0 as int;
    let flag = m.flag();
    &&& m.from_sq().0 == f
    &&& m.has_valid_flag()
    &&& bit(valid, t as u64)
    &&& (if last_rank(t) {
        flag.spec_is_promotion()
    } else {
        !flag.spec_is_promotion()
    })
    &&& ((t == fwd(c, f, 1) && cells[t] is None && (flag == MoveFlag::Quiet || (flag.spec_is_promotion()
        && !flag.spec_is_capture())))
        || (flag == MoveFlag::DoublePawnPush && start_rank(c, f) && t == fwd(c, f, 2) && cells[fwd(c, f, 1)] is None && cells[t] is None)
        || ((flag == MoveFlag::Capture || (flag.spec_is_promotion() && flag.spec_is_capture())) && pawn_rel(c, f, t) && holds(cells[t], c.opposite())))
}

/// A promotion flag is fixed by whether it captures and the piece it promotes to.
proof fn lemma_promo_flag_eq(a: MoveFlag, b: MoveFlag)
    requires
        a.spec_is_promotion(),
        b.spec_is_promotion(),
        a.spec_is_capture() == b.spec_is_capture(),
        a.spec_promoted_piece() == b.spec_promoted_piece(),
    ensures
        a == b,
{
}

/// The place of a promotion among the four the generators add: knight 0, bishop 1,
/// rook 2, queen 3 (0 for other moves).
pub open spec fn promo_index(fl: MoveFlag) -> int {
    if fl.spec_is_promotion() {
        match fl.spec_promoted_piece() {
            Piece::Knight => 0,
            Piece::Bishop => 1,
            Piece::Rook => 2,
            _ => 3,
        }
    } else {
        0
    }
}

/// The order of pawn moves within one kind of move: by source square, then by
/// promotion piece.
pub open spec fn sub_key(m: Move) -> int {
    m.from_sq().0 * 4 + promo_index(m.flag())
}

/// The order in which pawn moves are generated (`pd` the push distance): by the kind
/// of move (see `batch_stage`), then by `sub_key`.
pub open spec fn order_key(m: Move, pd: int) -> int {
    crate::pawn_batch::batch_stage(m, pd) * 256 + sub_key(m)
}

/// The moves of `moves` from `start` on come in strictly increasing `order_key`.
pub open spec fn keys_increasing(moves: Seq<Move>, start: int, pd: int) -> bool {
    forall|i: int, j: int| start <= i < j < moves.len() ==> order_key(#[trigger] moves[i], pd) < order_key(#[trigger] moves[j], pd)
}

/// Appending a move whose key is above those of the moves from `start` on keeps the
/// keys increasing.
pub proof fn lemma_keys_push(s: Seq<Move>, start: int, pd: int, x: Move)
    requires
        0 <= start,
        keys_increasing(s, start, pd),
        forall|i: int| start <= i < s.len() ==> order_key(#[trigger] s[i], pd) < order_key(x, pd),
    ensures
        keys_increasing(s.push(x), start, pd),
{
    assert forall|i: int, j: int| start <= i < j < s.push(x).len() implies order_key(#[trigger] s.push(x)[i], pd) < order_key(#[trigger] s.push(x)[j], pd) by {
        assert(s.push(x)[i] == s[i]);
        if j < s.len() {
            assert(s.push(x)[j] == s[j]);
        }
    }
}

/// A pawn captures one file to either side, one rank ahead.
proof fn lemma_pawn_rel_offset(c: Color, f: int, t: int)
    requires
        0 <= f < 64,
        0 <= t < 64,
        pawn_rel(c, f, t),
    ensures
        t - f == fwd(c, 0, 1) - 1 || t - f == fwd(c, 0, 1) + 1,
{
    crate::geometry::lemma_sq_decompose(f);
    crate::geometry::lemma_sq_decompose(t);
}

/// The lowest key a capture from `f` onto `t` can have (see `order_key`): left captures
/// come before right ones.
pub open spec fn cap_floor(f: int, t: int, pd: int) -> int {
    if t - f == pd - 1 {
        1024
    } else {
        1536
    }
}

/// Adds the four promotions (to knight, bishop, rook, queen) from `from` to `to`,
/// capturing ones when `capture` holds.
pub(crate) fn push_promotions(moves: &mut Vec<Move>, from: Sq64, to: Sq64, capture: bool)
    requires
        from.valid(),
        to.valid(),
    ensures
        final(moves)@.len() == old(moves)@.len() + 4,
        final(moves)@.subrange(0, old(moves)@.len() as int) == old(moves)@,
        forall|i: int| old(moves)@.len() <= i < final(moves)@.len() ==> {
            let m = #[trigger] final(moves)@[i];
            &&& m.from_sq() == from
            &&& m.to_sq() == to
            &&& m.has_valid_flag()
            &&& m.flag().spec_is_promotion()
            &&& m.flag().spec_is_capture() == capture
        },
        forall|m: Move|
            m.from_sq() == from && m.to_sq() == to && m.has_valid_flag() && m.flag().spec_is_promotion()
                && m.flag().spec_is_capture() == capture ==> #[trigger] final(moves)@.contains(m),
        distinct_after(final(moves)@, old(moves)@.len() as int),
        forall|i: int| old(moves)@.len() <= i < final(moves)@.len() ==> promo_index((#[trigger] final(moves)@[i]).flag()) == i - old(moves)@.len(),
{
    let ghost start = moves@;
    if capture {
        moves.push(Move::new_flags(from, to, MoveFlag::new_promotion_capture(Piece::Knight)));
        moves.push(Move::new_flags(from, to, MoveFlag::new_promotion_capture(Piece::Bishop)));
        moves.push(Move::new_flags(from, to, MoveFlag::new_promotion_capture(Piece::Rook)));
        moves.push(Move::new_flags(from, to, MoveFlag::new_promotion_capture(Piece::Queen)));
    } else {
        moves.push(Move::new_flags(from, to, MoveFlag::new_promotion(Piece::Knight)));
        moves.push(Move::new_flags(from, to, MoveFlag::new_promotion(Piece::Bishop)));
        moves.push(Move::new_flags(from, to, MoveFlag::new_promotion(Piece::Rook)));
        moves.push(Move::new_flags(from, to, MoveFlag::new_promotion(Piece::Queen)));
    }
    proof {
        assert(moves@.subrange(0, start.len() as int) =~= start);
        let n = start.len() as int;
        assert(moves@[n].flag().spec_promoted_piece() == Piece::Knight);
        assert(moves@[n + 1].flag().spec_promoted_piece() == Piece::Bishop);
        assert(moves@[n + 2].flag().spec_promoted_piece() == Piece::Rook);
        assert(moves@[n + 3].flag().spec_promoted_piece() == Piece::Queen);
        assert forall|i: int, j: int| n <= i < moves@.len() && n <= j < moves@.len() && i != j implies moves@[i] != moves@[j] by {
            assert(moves@[i].flag().spec_promoted_piece() != moves@[j].flag().spec_promoted_piece());
        }
        assert forall|m: Move|
            m.from_sq() == from && m.to_sq() == to && m.has_valid_flag() && m.flag().spec_is_promotion()
                && m.flag().spec_is_capture() == capture implies #[trigger] moves@.contains(m) by {
            let p = m.flag().spec_promoted_piece();
            let k: int = if p == Piece::Knight {
                0
            } else if p == Piece::Bishop {
                1
            } else if p == Piece::Rook {
                2
            } else {
                3
            };
            lemma_promo_flag_eq(m.flag(), moves@[n + k].flag());
            crate::moves::lemma_move_eq(m, moves@[n + k]);
            assert(moves@[n + k] == m);
        }
    }
}

/// Every promotion from `f` to `t` (capturing ones when `capture` holds) is in `moves`.
pub open spec fn promos_in(moves: Seq<Move>, f: int, t: int, capture: bool) -> bool {
    forall|m: Move|
        m.from_sq().0 == f && m.to_sq().0 == t && m.has_valid_flag() && m.flag().spec_is_promotion()
            && m.flag().spec_is_capture() == capture ==> #[trigger] moves.contains(m)
}

/// The pawn move from `f` to `t` is in `moves`: all four promotions on the last rank,
/// else the plain push (or capture when `capture` holds).
pub open spec fn pawn_target_in(moves: Seq<Move>, f: int, t: int, capture: bool) -> bool {
    if last_rank(t) {
        promos_in(moves, f, t, capture)
    } else {
        moves.contains(packed(f, t, if capture { 4 } else { 0 }))
    }
}

/// A list that starts with another contains the pawn moves the other contains.
proof fn lemma_pawn_target_prefix(s: Seq<Move>, pre: Seq<Move>, f: int, t: int, capture: bool)
    requires
        pawn_target_in(pre, f, t, capture),
        s.len() >= pre.len(),
        s.subrange(0, pre.len() as int) == pre,
    ensures
        pawn_target_in(s, f, t, capture),
{
    if last_rank(t) {
        assert forall|m: Move|
            m.from_sq().0 == f && m.to_sq().0 == t && m.has_valid_flag() && m.flag().spec_is_promotion()
                && m.flag().spec_is_capture() == capture implies #[trigger] s.contains(m) by {
            assert(pre.contains(m));
            lemma_contains_prefix(s, pre, m);
        }
    } else {
        lemma_contains_prefix(s, pre, packed(f, t, if capture { 4 } else { 0 }));
    }
}

/// Adds the pushes, double pushes, captures and promotions of the pawn on `from_sq` to
/// squares of `valid_destinations` (en passant is left to `generate_ep_move`).
#[verifier::rlimit(60)]
pub fn generate_pawn_pushes_and_captures(
    board: &Board,
    from_sq: Sq64,
    c: Color,
    moves: &mut Vec<Move>,
    valid_destinations: u64,
)
    requires
        board.wf(),
        8 <= from_sq.0 < 56,
        board.cells()[from_sq.0 as int] == Some((c, Piece::Pawn)),
    ensures
        final(moves)@.len() >= old(moves)@.len(),
        final(moves)@.subrange(0, old(moves)@.len() as int) == old(moves)@,
        forall|i: int| old(moves)@.len() <= i < final(moves)@.len() ==> pawn_move_ok(board.cells(), c, from_sq.0 as int, #[trigger] final(moves)@[i], valid_destinations),
        forall|m: Move| pawn_move_ok(board.cells(), c, from_sq.0 as int, m, valid_destinations) ==> #[trigger] final(moves)@.contains(m),
        distinct_after(final(moves)@, old(moves)@.len() as int),
        keys_increasing(final(moves)@, old(moves)@.len() as int, fwd(c, 0, 1)),
        forall|i: int| old(moves)@.len() <= i < final(moves)@.len() ==> crate::pawn_batch::batch_stage(#[trigger] final(moves)@[i], fwd(c, 0, 1)) <= 7,
{
    proof {
        assert(fwd(c, 0, 1) == 8 || fwd(c, 0, 1) == -8);
    }
    let ghost cells = board.cells();
    let ghost start = moves@;
    let ghost f = from_sq.0 as int;
    let ghost t1 = fwd(c, f, 1);
    let ghost t2 = fwd(c, f, 2);
    let ghost pd = fwd(c, 0, 1);
    proof {
        assert(moves@.subrange(0, start.len() as int) =~= start);
    }
    let target_square = match c {
        Color::White => from_sq.offset(8),
        Color::Black => from_sq.offset(-8),
    };
    assert(target_square.0 == t1);
    if !board.is_occupied(target_square) {
        if target_square.is_on_bb(valid_destinations) {
            let ghost m0 = moves@;
            if target_square.rank() == 7 || target_square.rank() == 0 {
                push_promotions(moves, from_sq, target_square, false);
            } else {
                let m = Move::new(from_sq, target_square);
                moves.push(m);
                proof {
                    lemma_packed(m);
                    lemma_contains_push(m0, m, m);
                }
            }
            proof {
                assert(moves@.subrange(0, start.len() as int) =~= start) by {
                    assert(moves@.subrange(0, m0.len() as int) == m0);
                    assert(m0.subrange(0, start.len() as int) == start);
                }
                assert(pawn_target_in(moves@, f, t1, false));
            }
        }
        let ghost after_single = moves@;
        proof {
            assert(moves@.subrange(0, after_single.len() as int) =~= after_single);
        }
        if (from_sq.rank() == 1 && c == Color::White) || (from_sq.rank() == 6 && c == Color::Black) {
            let target2 = match c {
                Color::White => from_sq.offset(16),
                Color::Black => from_sq.offset(-16),
            };
            assert(target2.0 == t2);
            if target2.is_on_bb(valid_destinations) && !board.is_occupied(target2) {
                let m = Move::new_flags(from_sq, target2, MoveFlag::DoublePawnPush);
                moves.push(m);
                proof {
                    assert(moves@.subrange(0, start.len() as int) =~= start);
                    assert(moves@.subrange(0, after_single.len() as int) =~= after_single);
                    lemma_packed(m);
                    lemma_contains_push(after_single, m, m);
                }
            }
        }
        proof {
            if bit(valid_destinations, t1 as u64) {
                lemma_pawn_target_prefix(moves@, after_single, f, t1, false);
            }
        }
    }
    let ghost after_push = moves@;
    proof {
        assert(keys_increasing(after_push, start.len() as int, pd)) by {
            assert forall|i: int, j: int| start.len() <= i < j < after_push.len() implies order_key(#[trigger] after_push[i], pd) < order_key(#[trigger] after_push[j], pd) by {
                crate::moves::lemma_move_squares(after_push[i]);
                crate::moves::lemma_move_squares(after_push[j]);
            }
        }
        assert forall|i: int| start.len() <= i < after_push.len() implies crate::pawn_batch::batch_stage(#[trigger] after_push[i], pd) <= 3
            && order_key(after_push[i], pd) < 1024 by {
            crate::moves::lemma_move_squares(after_push[i]);
        }
        assert forall|i: int| start.len() <= i < after_push.len() implies !(#[trigger] after_push[i]).flag().spec_is_capture()
            && (after_push[i].flag() == MoveFlag::DoublePawnPush || after_push[i].to_sq().0 == t1) by {
            crate::moves::lemma_move_squares(after_push[i]);
        }
        assert(distinct_after(after_push, start.len() as int)) by {
            assert forall|i: int, j: int| start.len() <= i < after_push.len() && start.len() <= j < after_push.len() && i != j implies after_push[i] != after_push[j] by {
                crate::moves::lemma_move_squares(after_push[i]);
                crate::moves::lemma_move_squares(after_push[j]);
            }
        }
        assert(moves@.subrange(0, after_push.len() as int) =~= after_push);
        assert(cells[t1] is None && bit(valid_destinations, t1 as u64) ==> pawn_target_in(after_push, f, t1, false));
        assert(start_rank(c, f) && cells[t1] is None && cells[t2] is None && bit(valid_destinations, t2 as u64)
            ==> after_push.contains(packed(f, t2, 1)));
    }
    let pat = pawn_attacks(c, from_sq);
    let mut caps = pat & board.occ_enemy(c) & valid_destinations;
    let ghost caps0 = caps;
    proof {
        assert forall|i: u64| i < 64 implies (#[trigger] bit(caps, i) <==> (pawn_rel(c, f, i as int) && holds(cells[i as int], c.opposite()) && bit(valid_destinations, i))) by {
            lemma_bit_ops(pat & board.color_bb(c.opposite()), valid_destinations, i);
            lemma_bit_ops(pat, board.color_bb(c.opposite()), i);
            lemma_color_bits(*board, c.opposite(), i);
            lemma_pawn_rel(c, f, i as int);
        }
    }
    while caps != 0
        invariant
            board.wf(),
            cells == board.cells(),
            f == from_sq.0,
            8 <= f < 56,
            forall|i: u64| i < 64 && #[trigger] bit(caps, i) ==> bit(caps0, i),
            forall|i: u64| i < 64 ==> (#[trigger] bit(caps0, i) <==> (pawn_rel(c, f, i as int) && holds(cells[i as int], c.opposite()) && bit(valid_destinations, i))),
            forall|i: u64| i < 64 && #[trigger] bit(caps0, i) && !bit(caps, i) ==> pawn_target_in(moves@, f, i as int, true),
            moves@.len() >= after_push.len(),
            moves@.subrange(0, after_push.len() as int) == after_push,
            after_push.len() >= start.len(),
            after_push.subrange(0, start.len() as int) == start,
            forall|i: int| start.len() <= i < moves@.len() ==> pawn_move_ok(cells, c, f, #[trigger] moves@[i], valid_destinations),
            distinct_after(moves@, start.len() as int),
            forall|i: int| start.len() <= i < moves@.len() ==> !(#[trigger] moves@[i]).flag().spec_is_capture() || !bit(caps, moves@[i].to_sq().0 as u64),
            pd == fwd(c, 0, 1),
            keys_increasing(moves@, start.len() as int, pd),
            forall|i: int| start.len() <= i < moves@.len() ==> crate::pawn_batch::batch_stage(#[trigger] moves@[i], pd) <= 7,
            forall|i: int, t: u64| start.len() <= i < moves@.len() && t < 64 && #[trigger] bit(caps, t) ==> order_key(#[trigger] moves@[i], pd) < cap_floor(f, t as int, pd),
        decreases caps,
    {
        let ghost q0 = caps;
        let to_sq = pop_lsb(&mut caps);
        proof {
            assert(bit(q0, to_sq.0 as u64));
        }
        let ghost before = moves@;
        if to_sq.rank() == 7 || to_sq.rank() == 0 {
            push_promotions(moves, from_sq, to_sq, true);
        } else {
            let m = Move::new_flags(from_sq, to_sq, MoveFlag::Capture);
            moves.push(m);
            proof {
                lemma_packed(m);
                lemma_contains_push(before, m, m);
            }
        }
        proof {
            assert(moves@.subrange(0, before.len() as int) == before);
            assert(moves@.subrange(0, after_push.len() as int) =~= after_push) by {
                assert(before.subrange(0, after_push.len() as int) == after_push);
            }
            assert forall|i: int| start.len() <= i < moves@.len() implies pawn_move_ok(cells, c, f, #[trigger] moves@[i], valid_destinations) by {
                if i < before.len() {
                    assert(moves@[i] == before[i]);
                }
            }
            assert forall|i: int| start.len() <= i < moves@.len() implies !(#[trigger] moves@[i]).flag().spec_is_capture() || !bit(caps, moves@[i].to_sq().0 as u64) by {
                crate::moves::lemma_move_squares(moves@[i]);
                if i < before.len() {
                    assert(moves@[i] == before[i]);
                }
            }
            assert forall|i: int, j: int| start.len() <= i < moves@.len() && start.len() <= j < moves@.len() && i != j implies moves@[i] != moves@[j] by {
                crate::moves::lemma_move_squares(moves@[i]);
                crate::moves::lemma_move_squares(moves@[j]);
                if i < before.len() {
                    assert(moves@[i] == before[i]);
                    assert(!bit(q0, moves@[i].to_sq().0 as u64) || !moves@[i].flag().spec_is_capture());
                }
                if j < before.len() {
                    assert(moves@[j] == before[j]);
                    assert(!bit(q0, moves@[j].to_sq().0 as u64) || !moves@[j].flag().spec_is_capture());
                }
            }
            assert(pawn_target_in(moves@, f, to_sq.0 as int, true));
            let t = to_sq.0 as int;
            lemma_pawn_rel_offset(c, f, t);
            assert forall|i: int| before.len() <= i < moves@.len() implies order_key(#[trigger] moves@[i], pd) >= cap_floor(f, t, pd)
                && order_key(moves@[i], pd) < cap_floor(f, t, pd) + 512 && crate::pawn_batch::batch_stage(moves@[i], pd) <= 7
                && (t - f == pd - 1 ==> order_key(moves@[i], pd) < 1536) by {
                crate::moves::lemma_move_squares(moves@[i]);
            }
            assert(keys_increasing(moves@, start.len() as int, pd)) by {
                assert forall|i: int, j: int| start.len() <= i < j < moves@.len() implies order_key(#[trigger] moves@[i], pd) < order_key(#[trigger] moves@[j], pd) by {
                    if j < before.len() {
                        assert(moves@[i] == before[i] && moves@[j] == before[j]);
                    } else if i < before.len() {
                        assert(moves@[i] == before[i]);
                        assert(bit(q0, t as u64));
                    } else {
                        crate::moves::lemma_move_squares(moves@[i]);
                        crate::moves::lemma_move_squares(moves@[j]);
                        assert(promo_index(moves@[i].flag()) < promo_index(moves@[j].flag()) || moves@[i].flag() == MoveFlag::Capture);
                    }
                }
            }
            assert forall|i: int, x: u64| start.len() <= i < moves@.len() && x < 64 && #[trigger] bit(caps, x) implies order_key(#[trigger] moves@[i], pd) < cap_floor(f, x as int, pd) by {
                assert(bit(q0, x) && x != t && x > t);
                lemma_pawn_rel_offset(c, f, x as int);
                if i < before.len() {
                    assert(moves@[i] == before[i]);
                }
            }
            assert forall|i: u64| i < 64 && #[trigger] bit(caps0, i) && !bit(caps, i) implies pawn_target_in(moves@, f, i as int, true) by {
                if i != to_sq.0 {
                    lemma_pawn_target_prefix(moves@, before, f, i as int, true);
                }
            }
        }
    }
    proof {
        assert(moves@.subrange(0, start.len() as int) =~= start) by {
            assert(after_push.subrange(0, start.len() as int) == start);
        }
        assert forall|m: Move| pawn_move_ok(cells, c, f, m, valid_destinations) implies #[trigger] moves@.contains(m) by {
            let t = m.to_sq().0 as int;
            crate::moves::lemma_move_squares(m);
            lemma_packed(m);
            lemma_bit_ops(0u64, 0u64, t as u64);
            if m.flag() == MoveFlag::DoublePawnPush {
                assert(after_push.contains(packed(f, t2, 1)));
                lemma_contains_prefix(moves@, after_push, m);
            } else if t == t1 && cells[t] is None && (m.flag() == MoveFlag::Quiet || (m.flag().spec_is_promotion() && !m.flag().spec_is_capture())) {
                lemma_pawn_target_prefix(moves@, after_push, f, t, false);
                assert(pawn_target_in(moves@, f, t, false));
            } else {
                assert(bit(caps0, t as u64));
                assert(pawn_target_in(moves@, f, t, true));
            }
        }
    }
}

/// With the pawns on `f` and `csq` gone, no enemy rook or queen sees the king of colour
/// `c` along a rank or file; only checked when the king shares the rank of `f`.
pub open spec fn ep_discovery_ok(b: Board, c: Color, f: int, csq: int) -> bool {
    let k = king_sq_of(b, c);
    let occ = b.all_bb() & !((1u64 << (f as u64)) | (1u64 << (csq as u64)));
    k / 8 == f / 8 ==> forall|a: int|
        0 <= a < 64 && (b.cells()[a] == Some((c.opposite(), Piece::Rook)) || b.cells()[a] == Some(
            (c.opposite(), Piece::Queen),
        )) ==> !(#[trigger] rook_line(k, a) && path_clear(occ, k, a))
}

/// An en passant capture from `f`: onto the en passant square diagonally ahead, allowed
/// when the target is in `valid` (and no rook line to the king opens) or when the
/// captured pawn itself is in `valid`.
pub open spec fn ep_move_ok(b: Board, si: StateInfo, c: Color, f: int, m: Move, valid: u64) -> bool {
    let t = m.to_sq().0 as int;
    let csq = fwd(c, t, -1);
    &&& m.from_sq().0 == f
    &&& m.has_valid_flag()
    &&& m.flag() == MoveFlag::EnPassant
    &&& si.ep_square == Some(Sq64(t as u8))
    &&& pawn_rel(c, f, t)
    &&& ((bit(valid, t as u64) && ep_discovery_ok(b, c, f, csq)) || (!bit(valid, t as u64) && bit(valid, csq as u64)))
}

/// The en passant square lies on the rank a pawn of the side to move captures onto.
pub open spec fn ep_square_placed(si: StateInfo, c: Color) -> bool {
    si.ep_square matches Some(e) ==> match c {
        Color::White => 40 <= e.0 < 48,
        Color::Black => 16 <= e.0 < 24,
    }
}

/// Adds the en passant capture by the pawn on `from_square` when it is allowed; `pa_bb`
/// holds squares that pawn attacks, the en passant square among them when it attacks it.
pub fn generate_ep_move(
    board: &Board,
    from_square: Sq64,
    c: Color,
    moves: &mut Vec<Move>,
    state_info: &StateInfo,
    valid_destinations: u64,
    pa_bb: u64,
)
    requires
        board.wf(),
        from_square.valid(),
        board.has_piece(c, Piece::King),
        ep_square_placed(*state_info, c),
        forall|t: u64| t < 64 && #[trigger] bit(pa_bb, t) ==> pawn_rel(c, from_square.0 as int, t as int),
        state_info.ep_square matches Some(e) ==> (pawn_rel(c, from_square.0 as int, e.0 as int) ==> bit(pa_bb, e.0 as u64)),
    ensures
        final(moves)@.len() >= old(moves)@.len(),
        final(moves)@.subrange(0, old(moves)@.len() as int) == old(moves)@,
        forall|i: int| old(moves)@.len() <= i < final(moves)@.len() ==> ep_move_ok(*board, *state_info, c, from_square.0 as int, #[trigger] final(moves)@[i], valid_destinations),
        forall|m: Move| ep_move_ok(*board, *state_info, c, from_square.0 as int, m, valid_destinations) ==> #[trigger] final(moves)@.contains(m),
        final(moves)@.len() <= old(moves)@.len() + 1,
{
    let ghost start = moves@;
    let ghost f = from_square.0 as int;
    proof {
        assert(moves@.subrange(0, start.len() as int) =~= start);
    }
    match state_info.ep_square {
        Some(ep_sq) => {
            let pawn_sq = match c {
                Color::White => ep_sq.offset(-8),
                Color::Black => ep_sq.offset(8),
            };
            assert(pawn_sq.0 == fwd(c, ep_sq.0 as int, -1));
            if ep_sq.is_on_bb(pa_bb) {
                let m = Move::new_flags(from_square, ep_sq, MoveFlag::EnPassant);
                let allowed = if ep_sq.is_on_bb(valid_destinations) {
                    ep_rank_safe(board, c, from_square, pawn_sq)
                } else {
                    pawn_sq.is_on_bb(valid_destinations)
                };
                if allowed {
                    moves.push(m);
                    proof {
                        assert(moves@.subrange(0, start.len() as int) =~= start);
                        lemma_packed(m);
                        lemma_contains_push(start, m, m);
                    }
                }
                proof {
                    assert forall|mv: Move| ep_move_ok(*board, *state_info, c, f, mv, valid_destinations) implies #[trigger] moves@.contains(mv) by {
                        crate::moves::lemma_move_squares(mv);
                        lemma_packed(mv);
                        lemma_packed(m);
                    }
                }
            } else {
                proof {
                    assert forall|mv: Move| ep_move_ok(*board, *state_info, c, f, mv, valid_destinations) implies #[trigger] moves@.contains(mv) by {
                        crate::moves::lemma_move_squares(mv);
                    }
                }
            }
        },
        None => {},
    }
}

/// Whether capturing en passant from `from`, taking the pawn on `csq`, leaves the king
/// of colour `c` unseen by enemy rooks and queens along its rank (see `ep_discovery_ok`).
pub fn ep_rank_safe(board: &Board, c: Color, from: Sq64, csq: Sq64) -> (r: bool)
    requires
        board.wf(),
        board.has_piece(c, Piece::King),
        from.valid(),
        csq.valid(),
    ensures
        r == ep_discovery_ok(*board, c, from.0 as int, csq.0 as int),
{
    let king_sq = board.find_king(c);
    proof {
        lemma_king_sq_of(*board, c);
        assert(king_sq.0 as int == king_sq_of(*board, c));
    }
    if king_sq.rank() != from.rank() {
        return true;
    }
    let mask = from.mask() | csq.mask();
    let occupancy = board.occ() & !mask;
    let rat = get_rook_moves(king_sq, occupancy);
    let enemy_rq = board.get_piece_bitboard(c.flip(), Piece::Rook) | board.get_piece_bitboard(c.flip(), Piece::Queen);
    let safe = rat & enemy_rq == 0;
    proof {
        let k = king_sq.0 as int;
        let cells = board.cells();
        if safe {
            lemma_zero_no_bits(rat & enemy_rq);
            assert forall|a: int|
                0 <= a < 64 && (cells[a] == Some((c.opposite(), Piece::Rook)) || cells[a] == Some((c.opposite(), Piece::Queen)))
                implies !(#[trigger] rook_line(k, a) && path_clear(occupancy, k, a)) by {
                lemma_bit_ops(rat, enemy_rq, a as u64);
                lemma_bit_ops(board.piece_bb(c.opposite(), Piece::Rook), board.piece_bb(c.opposite(), Piece::Queen), a as u64);
                lemma_piece_bits(*board, c.opposite(), Piece::Rook, a as u64);
                lemma_piece_bits(*board, c.opposite(), Piece::Queen, a as u64);
                lemma_rook_slides(k, occupancy, a);
            }
        } else {
            crate::bits::lemma_and_nonzero(rat, enemy_rq);
            let a = choose|i: u64| i < 64 && #[trigger] bit(rat & enemy_rq, i);
            lemma_bit_ops(rat, enemy_rq, a);
            lemma_bit_ops(board.piece_bb(c.opposite(), Piece::Rook), board.piece_bb(c.opposite(), Piece::Queen), a);
            lemma_piece_bits(*board, c.opposite(), Piece::Rook, a);
            lemma_piece_bits(*board, c.opposite(), Piece::Queen, a);
            lemma_rook_slides(k, occupancy, a as int);
            assert(rook_line(k, a as int) && path_clear(occupancy, k, a as int));
            assert(cells[a as int] == Some((c.opposite(), Piece::Rook)) || cells[a as int] == Some((c.opposite(), Piece::Queen)));
            assert(!ep_discovery_ok(*board, c, from.0 as int, csq.0 as int));
        }
    }
    safe
}

/// Adds all moves of the pawn on `from_sq` to squares of `valid_destinations`,
/// en passant included.
pub fn generate_pawn_moves(
    board: &Board,
    from_sq: Sq64,
    c: Color,
    moves: &mut Vec<Move>,
    state_info: &StateInfo,
    valid_destinations: u64,
)
    requires
        board.wf(),
        8 <= from_sq.0 < 56,
        board.cells()[from_sq.0 as int] == Some((c, Piece::Pawn)),
        board.has_piece(c, Piece::King),
        ep_square_placed(*state_info, c),
    ensures
        final(moves)@.len() >= old(moves)@.len(),
        final(moves)@.subrange(0, old(moves)@.len() as int) == old(moves)@,
        forall|i: int| old(moves)@.len() <= i < final(moves)@.len() ==> pawn_move_ok(board.cells(), c, from_sq.0 as int, #[trigger] final(moves)@[i], valid_destinations)
            || ep_move_ok(*board, *state_info, c, from_sq.0 as int, final(moves)@[i], valid_destinations),
        forall|m: Move|
            pawn_move_ok(board.cells(), c, from_sq.0 as int, m, valid_destinations) || ep_move_ok(
                *board,
                *state_info,
                c,
                from_sq.0 as int,
                m,
                valid_destinations,
            ) ==> #[trigger] final(moves)@.contains(m),
        distinct_after(final(moves)@, old(moves)@.len() as int),
        keys_increasing(final(moves)@, old(moves)@.len() as int, fwd(c, 0, 1)),
{
    let ghost start = moves@;
    generate_pawn_pushes_and_captures(board, from_sq, c, moves, valid_destinations);
    let ghost mid = moves@;
    let pat = pawn_attacks(c, from_sq);
    proof {
        assert forall|t: u64| t < 64 implies (#[trigger] bit(pat, t) <==> pawn_rel(c, from_sq.0 as int, t as int)) by {
            lemma_pawn_rel(c, from_sq.0 as int, t as int);
        }
    }
    generate_ep_move(board, from_sq, c, moves, state_info, valid_destinations, pat);
    proof {
        let pd = fwd(c, 0, 1);
        if moves@.len() > mid.len() {
            let x = moves@[mid.len() as int];
            assert(moves@ =~= mid.push(x));
            assert(ep_move_ok(*board, *state_info, c, from_sq.0 as int, x, valid_destinations));
            crate::moves::lemma_move_squares(x);
            assert forall|i: int| start.len() <= i < mid.len() implies order_key(#[trigger] mid[i], pd) < order_key(x, pd) by {
                crate::moves::lemma_move_squares(mid[i]);
            }
            lemma_keys_push(mid, start.len() as int, pd, x);
        } else {
            assert(moves@ =~= mid);
        }
        assert(moves@.subrange(0, start.len() as int) =~= start) by {
            assert(moves@.subrange(0, mid.len() as int) == mid);
            assert(mid.subrange(0, start.len() as int) == start);
        }
        assert forall|i: int| start.len() <= i < moves@.len() implies pawn_move_ok(board.cells(), c, from_sq.0 as int, #[trigger] moves@[i], valid_destinations)
            || ep_move_ok(*board, *state_info, c, from_sq.0 as int, moves@[i], valid_destinations) by {
            if i < mid.len() {
                assert(moves@[i] == mid[i]);
            }
        }
        assert forall|m: Move|
            pawn_move_ok(board.cells(), c, from_sq.0 as int, m, valid_destinations) || ep_move_ok(
                *board,
                *state_info,
                c,
                from_sq.0 as int,
                m,
                valid_destinations,
            ) implies #[trigger] moves@.contains(m) by {
            if pawn_move_ok(board.cells(), c, from_sq.0 as int, m, valid_destinations) {
                assert(mid.contains(m));
                lemma_contains_prefix(moves@, mid, m);
            }
        }
        assert forall|i: int, j: int| start.len() <= i < moves@.len() && start.len() <= j < moves@.len() && i != j implies moves@[i] != moves@[j] by {
            if i < mid.len() {
                assert(moves@[i] == mid[i]);
                assert(pawn_move_ok(board.cells(), c, from_sq.0 as int, mid[i], valid_destinations));
            } else {
                assert(ep_move_ok(*board, *state_info, c, from_sq.0 as int, moves@[i], valid_destinations));
            }
            if j < mid.len() {
                assert(moves@[j] == mid[j]);
                assert(pawn_move_ok(board.cells(), c, from_sq.0 as int, mid[j], valid_destinations));
            } else {
                assert(ep_move_ok(*board, *state_info, c, from_sq.0 as int, moves@[j], valid_destinations));
            }
        }
    }
}

} // verus!
