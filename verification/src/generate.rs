use vstd::prelude::*;
use crate::bits::{bit, lemma_bit_ext, lemma_bit_ops, lemma_mask_of, mask_of};
use crate::board::Board;
use crate::board_state::{holds, kind};
use crate::moves::Move;
use crate::attacks::{between, between_spec};
use crate::board_state::BoardState;
use crate::movegen::{
    compute_checkers, is_checker, lemma_king_sq_of,
    castle_move_ok, castle_squares_ok, compute_pins, ep_move_ok, ep_square_placed,
    generate_castles, generate_king_moves, generate_knight_moves, generate_pawn_moves,
    generate_sliding_moves, king_sq_of, king_step_ok, lemma_pinner_unique, pawn_move_ok, pin_line,
    pinned, pinner, pins_final, plain_move_ok, pop_lsb, lemma_contains_prefix, distinct_after,
};
use crate::pawn_batch::lemma_prefix_trans;
use crate::pawn_batch::{batch_generate_pawn_moves, batch_move_ok};
use crate::piece::{Color, Piece};
use crate::position::{attacks_sq, pawns_inside};
use crate::state_info::StateInfo;

verus! {

/// The pinner of the pinned piece on `f`.
pub open spec fn the_pinner(cells: Seq<crate::board::Cell>, c: Color, k: int, f: int) -> int {
    choose|p: int| pinner(cells, c, k, p, f)
}

/// The squares the piece on `f` may move to without leaving a pin: the line to its
/// pinner when it is pinned, every square otherwise.
pub open spec fn pin_mask(cells: Seq<crate::board::Cell>, c: Color, k: int, f: int) -> u64 {
    if pinned(cells, c, k, f) {
        mask_of(|t: int| pin_line(k, the_pinner(cells, c, k, f), t), 64)
    } else {
        0xFFFF_FFFF_FFFF_FFFFu64
    }
}

/// The pin tables of `compute_pins` hold the pin mask of each square.
proof fn lemma_pins_mask(cells: Seq<crate::board::Cell>, c: Color, k: int, pinned_sqs: u64, pins: Seq<u64>)
    requires
        0 <= k < 64,
        pins_final(cells, c, k, pinned_sqs, pins),
    ensures
        forall|f: u64| f < 64 ==> #[trigger] pins[f as int] == pin_mask(cells, c, k, f as int),
{
    assert forall|f: u64| f < 64 implies #[trigger] pins[f as int] == pin_mask(cells, c, k, f as int) by {
        if bit(pinned_sqs, f) {
            let p = choose|p: int|
                #[trigger] pinner(cells, c, k, p, f as int) && forall|t: u64|
                    t < 64 ==> (bit(pins[f as int], t) <==> #[trigger] pin_line(k, p, t as int));
            let q = the_pinner(cells, c, k, f as int);
            lemma_pinner_unique(cells, c, k, p, q, f as int);
            let line = |t: int| pin_line(k, q, t);
            lemma_mask_of(line, 64);
            assert forall|t: u64| t < 64 implies #[trigger] bit(pins[f as int], t) == bit(pin_mask(cells, c, k, f as int), t) by {
                assert(bit(pins[f as int], t) <==> pin_line(k, p, t as int));
            }
            lemma_bit_ext(pins[f as int], pin_mask(cells, c, k, f as int));
        }
    }
}

/// A move of the side `c` that the generator produces when the pieces other than the
/// king must land on `valid` and castling is allowed when `castles` holds: each piece
/// moves by its own rule, a pinned piece stays on its pin line, and the king never
/// steps onto an attacked square.
pub open spec fn gen_ok(b: Board, si: StateInfo, c: Color, valid: u64, castles: bool, m: Move) -> bool {
    let cells = b.cells();
    let f = m.from_sq().0 as int;
    let t = m.to_sq().0 as int;
    let dest = valid & pin_mask(cells, c, king_sq_of(b, c), f);
    &&& holds(cells[f], c)
    &&& match kind(cells[f]) {
        Piece::Pawn => pawn_move_ok(cells, c, f, m, dest) || ep_move_ok(b, si, c, f, m, dest),
        Piece::King => king_step_ok(b, c, f, m) || (castles && castle_move_ok(b, si, c, f, m)),
        _ => plain_move_ok(cells, c, f, m) && attacks_sq(cells, f, t) && bit(dest, t as u64),
    }
}

/// What castling needs of the king squares: with a right held, the king of colour `c`
/// stands where the castling squares are on the board.
pub open spec fn kings_castle_ok(b: Board, si: StateInfo, c: Color) -> bool {
    forall|s: int| 0 <= s < 64 && #[trigger] b.cells()[s] == Some((c, Piece::King)) ==> castle_squares_ok(si, c, s)
}

/// Every move from `f` that `gen_ok` allows is in `moves`.
pub open spec fn from_moves_in(moves: Seq<Move>, b: Board, si: StateInfo, c: Color, valid: u64, castles: bool, f: int) -> bool {
    forall|m: Move| m.from_sq().0 == f && gen_ok(b, si, c, valid, castles, m) ==> #[trigger] moves.contains(m)
}

proof fn lemma_from_moves_prefix(
    big: Seq<Move>,
    pre: Seq<Move>,
    b: Board,
    si: StateInfo,
    c: Color,
    valid: u64,
    castles: bool,
    f: int,
)
    requires
        from_moves_in(pre, b, si, c, valid, castles, f),
        big.len() >= pre.len(),
        big.subrange(0, pre.len() as int) == pre,
    ensures
        from_moves_in(big, b, si, c, valid, castles, f),
{
    assert forall|m: Move| m.from_sq().0 == f && gen_ok(b, si, c, valid, castles, m) implies #[trigger] big.contains(m) by {
        assert(pre.contains(m));
        lemma_contains_prefix(big, pre, m);
    }
}

/// Generates the moves of colour `c` whose pieces other than the king land on
/// `valid_targets`, with castling when `castles` holds.
#[verifier::rlimit(60)]
fn generate_all(board: &Board, state_info: &StateInfo, c: Color, valid_targets: u64, castles: bool) -> (moves: Vec<Move>)
    requires
        board.wf(),
        board.has_piece(c, Piece::King),
        ep_square_placed(*state_info, c),
        pawns_inside(board.cells()),
        castles ==> kings_castle_ok(*board, *state_info, c),
    ensures
        forall|i: int| 0 <= i < moves@.len() ==> gen_ok(*board, *state_info, c, valid_targets, castles, #[trigger] moves@[i]),
        forall|m: Move| gen_ok(*board, *state_info, c, valid_targets, castles, m) ==> #[trigger] moves@.contains(m),
        moves@.no_duplicates(),
{
    let ghost cells = board.cells();
    let ghost k = king_sq_of(*board, c);
    let mut moves: Vec<Move> = Vec::new();
    let (pin_bb, pin_bbs) = compute_pins(board, c);
    let pawns = board.get_piece_bitboard(c, Piece::Pawn);
    let unpinned_pawns = pawns & !pin_bb;
    let king_sq = board.find_king(c);
    proof {
        assert(0 <= k < 64);
        lemma_pins_mask(cells, c, k, pin_bb, pin_bbs@);
        assert forall|s: u64| s < 64 && #[trigger] bit(unpinned_pawns, s) implies 8 <= s < 56 && cells[s as int] == Some((c, Piece::Pawn)) by {
            lemma_bit_ops(pawns, !pin_bb, s);
            assert(cells[s as int] is Some && kind(cells[s as int]) == Piece::Pawn);
        }
    }
    batch_generate_pawn_moves(board, unpinned_pawns, c, &mut moves, state_info, valid_targets);
    proof {
        assert(valid_targets & 0xFFFF_FFFF_FFFF_FFFFu64 == valid_targets) by (bit_vector);
        assert forall|i: int| 0 <= i < moves@.len() implies gen_ok(*board, *state_info, c, valid_targets, castles, #[trigger] moves@[i]) by {
            let m = moves@[i];
            let f = m.from_sq().0 as u64;
            crate::moves::lemma_move_squares(m);
            assert(batch_move_ok(*board, *state_info, c, unpinned_pawns, m, valid_targets));
            lemma_bit_ops(pawns, !pin_bb, f);
            lemma_bit_ops(pin_bb, pin_bb, f);
            assert(!pinned(cells, c, k, f as int));
        }
    }
    let ghost after_batch = moves@;
    let friendly = board.occ_friendly(c);
    let mut it = friendly & !unpinned_pawns;
    let ghost it0 = it;
    proof {
        assert(moves@.subrange(0, after_batch.len() as int) =~= after_batch);
        assert forall|s: u64| s < 64 && #[trigger] bit(it, s) implies holds(cells[s as int], c) by {
            lemma_bit_ops(friendly, !unpinned_pawns, s);
        }
        assert forall|i: int| 0 <= i < moves@.len() implies !bit(it, (#[trigger] moves@[i]).from_sq().0 as u64) by {
            let f = moves@[i].from_sq().0 as u64;
            crate::moves::lemma_move_squares(moves@[i]);
            assert(batch_move_ok(*board, *state_info, c, unpinned_pawns, moves@[i], valid_targets));
            lemma_bit_ops(friendly, !unpinned_pawns, f);
            lemma_bit_ops(unpinned_pawns, unpinned_pawns, f);
        }
    }
    while it != 0
        invariant
            board.wf(),
            cells == board.cells(),
            k == king_sq_of(*board, c),
            0 <= k < 64,
            board.has_piece(c, Piece::King),
            ep_square_placed(*state_info, c),
            pawns_inside(cells),
            castles ==> kings_castle_ok(*board, *state_info, c),
            pin_bbs@.len() == 64,
            forall|f: u64| f < 64 ==> #[trigger] pin_bbs@[f as int] == pin_mask(cells, c, k, f as int),
            forall|s: u64| s < 64 && #[trigger] bit(it, s) ==> holds(cells[s as int], c),
            forall|s: u64| s < 64 && #[trigger] bit(it, s) ==> bit(it0, s),
            forall|i: int| 0 <= i < moves@.len() ==> gen_ok(*board, *state_info, c, valid_targets, castles, #[trigger] moves@[i]),
            moves@.len() >= after_batch.len(),
            moves@.subrange(0, after_batch.len() as int) == after_batch,
            forall|s: u64|
                s < 64 && bit(it0, s) && !bit(it, s) ==> #[trigger] from_moves_in(
                    moves@,
                    *board,
                    *state_info,
                    c,
                    valid_targets,
                    castles,
                    s as int,
                ),
            distinct_after(moves@, 0),
            forall|i: int| 0 <= i < moves@.len() ==> !bit(it, (#[trigger] moves@[i]).from_sq().0 as u64),
        decreases it,
    {
        let ghost i0 = it;
        let from_sq = pop_lsb(&mut it);
        let ghost f = from_sq.0 as int;
        proof {
            assert(bit(i0, from_sq.0 as u64));
            assert(holds(cells[f], c));
            board.lemma_mailbox_cells(f);
        }
        let pbb = valid_targets & pin_bbs[from_sq.ind()];
        proof {
            assert(pin_bbs@[(from_sq.0 as u64) as int] == pin_mask(cells, c, k, (from_sq.0 as u64) as int));
            assert(pbb == valid_targets & pin_mask(cells, c, k, f));
            if kind(cells[f]) == Piece::Pawn {
                assert(cells[f] is Some);
                assert(8 <= f < 56);
            }
        }
        let ghost before = moves@;
        let piece = board.get_piece_at(from_sq);
        match piece {
            Piece::Pawn => {
                generate_pawn_moves(board, from_sq, c, &mut moves, state_info, pbb);
                proof {
                    assert forall|i: int| before.len() <= i < moves@.len() implies (#[trigger] moves@[i]).from_sq().0 == f by {
                        assert(pawn_move_ok(cells, c, f, moves@[i], pbb) || ep_move_ok(*board, *state_info, c, f, moves@[i], pbb));
                    }
                }
            },
            Piece::Knight => {
                generate_knight_moves(board, from_sq, c, &mut moves, pbb);
                proof {
                    assert forall|i: int| before.len() <= i < moves@.len() implies (#[trigger] moves@[i]).from_sq().0 == f by {
                        assert(plain_move_ok(cells, c, f, moves@[i]));
                    }
                }
            },
            Piece::Bishop => {
                generate_sliding_moves(board, from_sq, c, &mut moves, Piece::Bishop, pbb);
                proof {
                    assert forall|i: int| before.len() <= i < moves@.len() implies (#[trigger] moves@[i]).from_sq().0 == f by {
                        assert(plain_move_ok(cells, c, f, moves@[i]));
                    }
                }
            },
            Piece::Rook => {
                generate_sliding_moves(board, from_sq, c, &mut moves, Piece::Rook, pbb);
                proof {
                    assert forall|i: int| before.len() <= i < moves@.len() implies (#[trigger] moves@[i]).from_sq().0 == f by {
                        assert(plain_move_ok(cells, c, f, moves@[i]));
                    }
                }
            },
            Piece::Queen => {
                generate_sliding_moves(board, from_sq, c, &mut moves, Piece::Bishop, pbb);
                let ghost mid = moves@;
                generate_sliding_moves(board, from_sq, c, &mut moves, Piece::Rook, pbb);
                proof {
                    lemma_prefix_trans(before, mid, moves@);
                    assert forall|i: int| before.len() <= i < moves@.len() implies (#[trigger] moves@[i]).from_sq().0 == f by {
                        if i < mid.len() {
                            assert(moves@[i] == mid[i]);
                            assert(plain_move_ok(cells, c, f, mid[i]));
                        } else {
                            assert(plain_move_ok(cells, c, f, moves@[i]));
                        }
                    }
                    assert forall|i: int, j: int| before.len() <= i < moves@.len() && before.len() <= j < moves@.len() && i != j implies moves@[i] != moves@[j] by {
                        crate::moves::lemma_move_squares(moves@[i]);
                        crate::moves::lemma_move_squares(moves@[j]);
                        if i < mid.len() {
                            assert(moves@[i] == mid[i]);
                            assert(crate::geometry::bishop_line(f, mid[i].to_sq().0 as int));
                        } else {
                            assert(crate::geometry::rook_line(f, moves@[i].to_sq().0 as int));
                        }
                        if j < mid.len() {
                            assert(moves@[j] == mid[j]);
                            assert(crate::geometry::bishop_line(f, mid[j].to_sq().0 as int));
                        } else {
                            assert(crate::geometry::rook_line(f, moves@[j].to_sq().0 as int));
                        }
                    }
                    assert forall|i: int| before.len() <= i < moves@.len() implies gen_ok(*board, *state_info, c, valid_targets, castles, #[trigger] moves@[i]) by {
                        if i < mid.len() {
                            assert(moves@[i] == mid[i]);
                        }
                    }
                    assert forall|m: Move| m.from_sq().0 == f && gen_ok(*board, *state_info, c, valid_targets, castles, m) implies #[trigger] moves@.contains(m) by {
                        let t = m.to_sq().0 as int;
                        if crate::geometry::bishop_line(f, t) {
                            assert(mid.contains(m));
                            lemma_contains_prefix(moves@, mid, m);
                        }
                    }
                }
            },
            Piece::King => {
                generate_king_moves(board, from_sq, c, &mut moves);
                proof {
                    assert forall|i: int| before.len() <= i < moves@.len() implies (#[trigger] moves@[i]).from_sq().0 == f by {
                        assert(king_step_ok(*board, c, f, moves@[i]));
                    }
                }
                if castles {
                    let ghost mid = moves@;
                    generate_castles(board, from_sq, c, &mut moves, state_info);
                    proof {
                        lemma_prefix_trans(before, mid, moves@);
                        assert forall|i: int| before.len() <= i < moves@.len() implies (#[trigger] moves@[i]).from_sq().0 == f by {
                            if i < mid.len() {
                                assert(moves@[i] == mid[i]);
                            } else {
                                assert(castle_move_ok(*board, *state_info, c, f, moves@[i]));
                            }
                        }
                        assert forall|i: int, j: int| before.len() <= i < moves@.len() && before.len() <= j < moves@.len() && i != j implies moves@[i] != moves@[j] by {
                            if i < mid.len() {
                                assert(moves@[i] == mid[i]);
                                assert(king_step_ok(*board, c, f, mid[i]));
                            } else {
                                assert(castle_move_ok(*board, *state_info, c, f, moves@[i]));
                            }
                            if j < mid.len() {
                                assert(moves@[j] == mid[j]);
                                assert(king_step_ok(*board, c, f, mid[j]));
                            } else {
                                assert(castle_move_ok(*board, *state_info, c, f, moves@[j]));
                            }
                        }
                        assert forall|i: int| before.len() <= i < moves@.len() implies gen_ok(*board, *state_info, c, valid_targets, castles, #[trigger] moves@[i]) by {
                            if i < mid.len() {
                                assert(moves@[i] == mid[i]);
                            }
                        }
                        assert forall|m: Move| m.from_sq().0 == f && gen_ok(*board, *state_info, c, valid_targets, castles, m) implies #[trigger] moves@.contains(m) by {
                            if king_step_ok(*board, c, f, m) {
                                assert(mid.contains(m));
                                lemma_contains_prefix(moves@, mid, m);
                            }
                        }
                    }
                }
            },
        }
        proof {
            assert forall|i: int| 0 <= i < moves@.len() implies gen_ok(*board, *state_info, c, valid_targets, castles, #[trigger] moves@[i]) by {
                if i < before.len() {
                    assert(moves@[i] == before[i]);
                }
            }
            assert(from_moves_in(moves@, *board, *state_info, c, valid_targets, castles, f));
            lemma_prefix_trans(after_batch, before, moves@);
            assert forall|i: int| 0 <= i < moves@.len() implies !bit(it, (#[trigger] moves@[i]).from_sq().0 as u64) by {
                crate::moves::lemma_move_squares(moves@[i]);
                if i < before.len() {
                    assert(moves@[i] == before[i]);
                    assert(!bit(i0, before[i].from_sq().0 as u64));
                }
            }
            assert forall|i: int, j: int| 0 <= i < moves@.len() && 0 <= j < moves@.len() && i != j implies moves@[i] != moves@[j] by {
                crate::moves::lemma_move_squares(moves@[i]);
                crate::moves::lemma_move_squares(moves@[j]);
                if i < before.len() {
                    assert(moves@[i] == before[i]);
                    assert(!bit(i0, before[i].from_sq().0 as u64));
                }
                if j < before.len() {
                    assert(moves@[j] == before[j]);
                    assert(!bit(i0, before[j].from_sq().0 as u64));
                }
            }
            assert forall|x: u64|
                x < 64 && bit(it0, x) && !bit(it, x) implies #[trigger] from_moves_in(
                moves@,
                *board,
                *state_info,
                c,
                valid_targets,
                castles,
                x as int,
            ) by {
                if x != from_sq.0 {
                    assert(!bit(i0, x));
                    lemma_from_moves_prefix(moves@, before, *board, *state_info, c, valid_targets, castles, x as int);
                }
            }
        }
    }
    proof {
        assert forall|m: Move| gen_ok(*board, *state_info, c, valid_targets, castles, m) implies #[trigger] moves@.contains(m) by {
            let f = m.from_sq().0 as u64;
            crate::moves::lemma_move_squares(m);
            lemma_bit_ops(0u64, 0u64, f);
            lemma_bit_ops(friendly, !unpinned_pawns, f);
            lemma_bit_ops(unpinned_pawns, unpinned_pawns, f);
            lemma_bit_ops(pawns, !pin_bb, f);
            lemma_bit_ops(pin_bb, pin_bb, f);
            crate::movegen::lemma_color_bits(*board, c, f);
            if bit(unpinned_pawns, f) {
                assert(!pinned(cells, c, k, f as int));
                assert(batch_move_ok(*board, *state_info, c, unpinned_pawns, m, valid_targets));
                assert(after_batch.contains(m));
                lemma_contains_prefix(moves@, after_batch, m);
            } else {
                assert(holds(cells[f as int], c));
                assert(bit(friendly, f));
                assert(bit(it0, f));
                assert(from_moves_in(moves@, *board, *state_info, c, valid_targets, castles, f as int));
            }
        }
    }
    moves
}

/// The enemy pieces, other than the king, that give check to the king of colour `c`.
pub open spec fn checkers_bb(b: Board, c: Color) -> u64 {
    mask_of(|a: int| is_checker(b.cells(), c, king_sq_of(b, c), a), 64)
}

/// The squares on which a piece other than the king stops the check of the piece on
/// `a`: those between it and the king of colour `c`, and its own.
pub open spec fn block_mask(b: Board, c: Color, a: int) -> u64 {
    mask_of(|t: int| blocks(king_sq_of(b, c), a, t), 64)
}

/// `t` lies between the king on `k` and the checker on `a`, or is `a`.
pub open spec fn blocks(k: int, a: int, t: int) -> bool {
    between_spec(k, a, t) || t == a
}

/// The moves `generate_moves` produces for the side to move: out of check, every piece
/// moves by its rule onto any square (onto enemy pieces only, for captures alone) and
/// castling is allowed; against one checker the pieces other than the king must capture
/// or block it; against two, only the king moves.
pub open spec fn generated(b: Board, si: StateInfo, only_capture: bool, moves: Seq<Move>) -> bool {
    forall|i: int| 0 <= i < moves.len() ==> gen_move(b, si, only_capture, #[trigger] moves[i])
}

/// One move that `generate_moves` may produce (see `generated`).
pub open spec fn gen_move(b: Board, si: StateInfo, only_capture: bool, m: Move) -> bool {
    let c = si.active_color;
    let ch = checkers_bb(b, c);
    let k = king_sq_of(b, c);
    if ch == 0 {
        gen_ok(
            b,
            si,
            c,
            if only_capture {
                b.color_bb(c.opposite())
            } else {
                0xFFFF_FFFF_FFFF_FFFFu64
            },
            true,
            m,
        )
    } else if ch & ((ch - 1) as u64) == 0 {
        gen_ok(b, si, c, block_mask(b, c, vstd::std_specs::bits::u64_trailing_zeros(ch) as int), false, m)
    } else {
        m.from_sq().0 == k && king_step_ok(b, c, k, m)
    }
}

/// The requirements of move generation on a position: the board is consistent, the side
/// to move has a king, no pawn stands on the first or last rank, the en passant square
/// lies where the side to move captures onto, and castling rights match the king square.
pub open spec fn gen_ready(b: Board, si: StateInfo) -> bool {
    let c = si.active_color;
    &&& b.wf()
    &&& b.has_piece(c, Piece::King)
    &&& ep_square_placed(si, c)
    &&& pawns_inside(b.cells())
    &&& kings_castle_ok(b, si, c)
}

pub proof fn lemma_block_mask(b: Board, c: Color, a: int)
    ensures
        forall|t: u64| t < 64 ==> (#[trigger] bit(block_mask(b, c, a), t) <==> (between_spec(king_sq_of(b, c), a, t as int) || t == a)),
{
    let p = |t: int| blocks(king_sq_of(b, c), a, t);
    lemma_mask_of(p, 64);
}

/// The squares of `checkers_bb` are the checkers.
pub proof fn lemma_checkers_bits(b: Board, c: Color)
    ensures
        forall|t: u64| t < 64 ==> (#[trigger] bit(checkers_bb(b, c), t) <==> is_checker(b.cells(), c, king_sq_of(b, c), t as int)),
{
    let p = |a: int| is_checker(b.cells(), c, king_sq_of(b, c), a);
    lemma_mask_of(p, 64);
}

/// The squares of a pinned piece's `pin_mask` are those of the line to its pinner.
pub proof fn lemma_pin_mask_bits(cells: Seq<crate::board::Cell>, c: Color, k: int, f: int)
    ensures
        forall|t: u64| t < 64 ==> (#[trigger] bit(pin_mask(cells, c, k, f), t) <==> (!pinned(cells, c, k, f) || pin_line(k, the_pinner(cells, c, k, f), t as int))),
{
    let p = |t: int| pin_line(k, the_pinner(cells, c, k, f), t);
    lemma_mask_of(p, 64);
    assert forall|t: u64| t < 64 implies (#[trigger] bit(pin_mask(cells, c, k, f), t) <==> (!pinned(cells, c, k, f) || pin_line(k, the_pinner(cells, c, k, f), t as int))) by {
        lemma_bit_ops(0u64, 0u64, t);
    }
}

proof fn lemma_checkers(b: Board, c: Color, r: u64)
    requires
        forall|t: u64| t < 64 ==> (#[trigger] bit(r, t) <==> is_checker(b.cells(), c, king_sq_of(b, c), t as int)),
    ensures
        r == checkers_bb(b, c),
{
    let p = |a: int| is_checker(b.cells(), c, king_sq_of(b, c), a);
    lemma_mask_of(p, 64);
    assert forall|t: u64| t < 64 implies #[trigger] bit(r, t) == bit(checkers_bb(b, c), t) by {}
    lemma_bit_ext(r, checkers_bb(b, c));
}

/// Generates the legal moves of the side to move (only captures when `only_capture`):
/// each move that `gen_move` allows, once.
pub fn generate_moves(board_state: &BoardState, only_capture: bool) -> (moves: Vec<Move>)
    requires
        gen_ready(board_state.board, board_state.state_info),
    ensures
        generated(board_state.board, board_state.state_info, only_capture, moves@),
        forall|m: Move| gen_move(board_state.board, board_state.state_info, only_capture, m) ==> #[trigger] moves@.contains(m),
        moves@.no_duplicates(),
{
    let board = &board_state.board;
    let state_info = &board_state.state_info;
    let c = state_info.active_color;
    let checkers: u64 = compute_checkers(board, c);
    proof {
        lemma_checkers(*board, c, checkers);
    }
    if checkers == 0 {
        let bb = if only_capture {
            board.occ_enemy(c)
        } else {
            0xFFFF_FFFF_FFFF_FFFFu64
        };
        generate_all(board, state_info, c, bb, true)
    } else if checkers & (checkers - 1) == 0 {
        let king_sq = board.find_king(c);
        let attacker_sq = checkers.trailing_zeros() as u8;
        proof {
            crate::bits::lemma_pop_lsb(checkers);
        }
        let btw = between(king_sq.0, attacker_sq);
        let bb = btw | checkers;
        proof {
            let a = attacker_sq as int;
            lemma_block_mask(*board, c, a);
            assert forall|t: u64| t < 64 implies #[trigger] bit(bb, t) == bit(block_mask(*board, c, a), t) by {
                lemma_bit_ops(btw, checkers, t);
                crate::bits::lemma_bit_ops(checkers & ((checkers - 1) as u64), 0u64, t);
                assert(bit(btw, t) == between_spec(king_sq.0 as int, attacker_sq as int, t as int));
                assert(king_sq.0 as int == king_sq_of(*board, c));
                assert(bit(checkers, t) == (t == attacker_sq));
                assert(bit(block_mask(*board, c, a), t) == (between_spec(king_sq_of(*board, c), a, t as int) || t as int == a));
            }
            lemma_bit_ext(bb, block_mask(*board, c, a));
        }
        generate_all(board, state_info, c, bb, false)
    } else {
        let mut moves: Vec<Move> = Vec::new();
        let sq = board.find_king(c);
        proof {
            lemma_king_sq_of(*board, c);
        }
        generate_king_moves(board, sq, c, &mut moves);
        moves
    }
}

/// Whether the side to move is in check.
pub fn is_check(board_state: &BoardState) -> (r: bool)
    requires
        board_state.board.wf(),
        board_state.board.has_piece(board_state.state_info.active_color, Piece::King),
    ensures
        r == (checkers_bb(board_state.board, board_state.state_info.active_color) != 0),
{
    let board = &board_state.board;
    let c = board_state.state_info.active_color;
    let checkers: u64 = compute_checkers(board, c);
    proof {
        lemma_checkers(*board, c, checkers);
    }
    checkers != 0
}

} // verus!
