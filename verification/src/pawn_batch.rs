use vstd::prelude::*;
use crate::bits::{bit, lemma_bit_ops, lemma_bit_or_single, rotate_left, rotate_right};
use crate::board::Board;
use crate::board_state::holds;
use crate::geometry::pawn_rel;
use crate::moves::{Move, MoveFlag};
use crate::movegen::{keys_increasing, order_key, promo_index, sub_key, 
    ep_move_ok, ep_square_placed, extends, fwd, generate_ep_move, generate_pawn_moves, last_rank,
    distinct_after, lemma_contains_prefix, lemma_extends_chain, packed, pawn_move_ok, pop_lsb, promos_in,
    push_promotions, start_rank,
};
use crate::piece::{Color, Piece};
use crate::square::Sq64;
use crate::state_info::StateInfo;

verus! {

/// The first and the last rank.
pub const BASE_RANKS: u64 = 0xFF00_0000_0000_00FFu64;

/// The a-file.
pub const FILE_A: u64 = 0x0101_0101_0101_0101u64;

/// The h-file.
pub const FILE_H: u64 = 0x8080_8080_8080_8080u64;

pub proof fn lemma_masks(i: u64)
    requires
        i < 64,
    ensures
        bit(BASE_RANKS, i) <==> (i < 8 || i >= 56),
        bit(FILE_A, i) <==> i % 8 == 0,
        bit(FILE_H, i) <==> i % 8 == 7,
{
    assert((0xFF00_0000_0000_00FFu64 >> i) & 1u64 == 1u64 <==> (i < 8 || i >= 56)) by (bit_vector)
        requires
            i < 64,
    ;
    assert((0x0101_0101_0101_0101u64 >> i) & 1u64 == 1u64 <==> i % 8 == 0) by (bit_vector)
        requires
            i < 64,
    ;
    assert((0x8080_8080_8080_8080u64 >> i) & 1u64 == 1u64 <==> i % 8 == 7) by (bit_vector)
        requires
            i < 64,
    ;
}

/// A move added by `push_shifted`: from a square of `srcs` to the square `delta`
/// further, a promotion (capturing when `capture`) when `promote`, else flagged `flag`.
pub open spec fn shifted_move(m: Move, srcs: u64, delta: int, flag: MoveFlag, promote: bool, capture: bool) -> bool {
    &&& bit(srcs, m.from_sq().0 as u64)
    &&& m.to_sq().0 == m.from_sq().0 + delta
    &&& m.has_valid_flag()
    &&& if promote {
        m.flag().spec_is_promotion() && m.flag().spec_is_capture() == capture
    } else {
        m.flag() == flag
    }
}

/// The moves from `s` to the square `delta` further are in `moves`: the four promotions
/// (capturing when `capture`) when `promote`, else the move flagged `flag`.
pub open spec fn shifted_in(moves: Seq<Move>, s: int, delta: int, flag: MoveFlag, promote: bool, capture: bool) -> bool {
    if promote {
        promos_in(moves, s, s + delta, capture)
    } else {
        moves.contains(packed(s, s + delta, flag.spec_code() as int))
    }
}

/// A list that starts with another contains the shifted moves the other contains.
proof fn lemma_shifted_prefix(
    big: Seq<Move>,
    pre: Seq<Move>,
    s: int,
    delta: int,
    flag: MoveFlag,
    promote: bool,
    capture: bool,
)
    requires
        shifted_in(pre, s, delta, flag, promote, capture),
        big.len() >= pre.len(),
        big.subrange(0, pre.len() as int) == pre,
    ensures
        shifted_in(big, s, delta, flag, promote, capture),
{
    if promote {
        assert forall|m: Move|
            m.from_sq().0 == s && m.to_sq().0 == s + delta && m.has_valid_flag() && m.flag().spec_is_promotion()
                && m.flag().spec_is_capture() == capture implies #[trigger] big.contains(m) by {
            assert(pre.contains(m));
            lemma_contains_prefix(big, pre, m);
        }
    } else {
        lemma_contains_prefix(big, pre, packed(s, s + delta, flag.spec_code() as int));
    }
}

/// Starting with a list that starts with a third one, a list starts with the third.
pub proof fn lemma_prefix_trans(a: Seq<Move>, b: Seq<Move>, c: Seq<Move>)
    requires
        b.len() >= a.len(),
        b.subrange(0, a.len() as int) == a,
        c.len() >= b.len(),
        c.subrange(0, b.len() as int) == b,
    ensures
        c.len() >= a.len(),
        c.subrange(0, a.len() as int) == a,
{
    assert(c.subrange(0, a.len() as int) =~= b.subrange(0, a.len() as int));
}

/// Adds, for each square of `srcs`, the moves from it to the square `delta` further.
fn push_shifted(moves: &mut Vec<Move>, srcs: u64, delta: i8, flag: MoveFlag, promote: bool, capture: bool)
    requires
        forall|s: u64| s < 64 && #[trigger] bit(srcs, s) ==> 0 <= s + delta < 64,
    ensures
        extends(final(moves)@, old(moves)@, |m: Move| shifted_move(m, srcs, delta as int, flag, promote, capture)),
        forall|s: u64| s < 64 && bit(srcs, s) ==> #[trigger] shifted_in(final(moves)@, s as int, delta as int, flag, promote, capture),
        distinct_after(final(moves)@, old(moves)@.len() as int),
        forall|i: int, j: int| old(moves)@.len() <= i < j < final(moves)@.len() ==> sub_key(#[trigger] final(moves)@[i]) < sub_key(#[trigger] final(moves)@[j]),
{
    let ghost start = moves@;
    let mut bb = srcs;
    proof {
        assert(moves@.subrange(0, start.len() as int) =~= start);
    }
    while bb != 0
        invariant
            forall|s: u64| s < 64 && #[trigger] bit(bb, s) ==> bit(srcs, s),
            forall|s: u64| s < 64 && #[trigger] bit(srcs, s) ==> 0 <= s + delta < 64,
            extends(moves@, start, |m: Move| shifted_move(m, srcs, delta as int, flag, promote, capture)),
            forall|s: u64| s < 64 && bit(srcs, s) && !bit(bb, s) ==> #[trigger] shifted_in(moves@, s as int, delta as int, flag, promote, capture),
            distinct_after(moves@, start.len() as int),
            forall|i: int| start.len() <= i < moves@.len() ==> !bit(bb, (#[trigger] moves@[i]).from_sq().0 as u64),
            forall|i: int, j: int| start.len() <= i < j < moves@.len() ==> sub_key(#[trigger] moves@[i]) < sub_key(#[trigger] moves@[j]),
            forall|i: int, x: u64| start.len() <= i < moves@.len() && x < 64 && #[trigger] bit(bb, x) ==> (#[trigger] moves@[i]).from_sq().0 < x,
        decreases bb,
    {
        let ghost b0 = bb;
        let s = pop_lsb(&mut bb);
        proof {
            assert(bit(srcs, s.0 as u64));
        }
        let t = s.offset(delta);
        let ghost before = moves@;
        if promote {
            push_promotions(moves, s, t, capture);
        } else {
            let m = Move::new_flags(s, t, flag);
            moves.push(m);
            proof {
                crate::movegen::lemma_packed(m);
                crate::movegen::lemma_contains_push(before, m, m);
            }
        }
        proof {
            assert(moves@.subrange(0, before.len() as int) =~= before);
            assert forall|i: int| before.len() <= i < moves@.len() implies shifted_move(
                #[trigger] moves@[i],
                srcs,
                delta as int,
                flag,
                promote,
                capture,
            ) by {}
            lemma_extends_chain(
                start,
                before,
                moves@,
                |m: Move| shifted_move(m, srcs, delta as int, flag, promote, capture),
                |m: Move| shifted_move(m, srcs, delta as int, flag, promote, capture),
            );
            assert(shifted_in(moves@, s.0 as int, delta as int, flag, promote, capture));
            assert forall|i: int| start.len() <= i < moves@.len() implies !bit(bb, (#[trigger] moves@[i]).from_sq().0 as u64) by {
                crate::moves::lemma_move_squares(moves@[i]);
                if i < before.len() {
                    assert(moves@[i] == before[i]);
                }
            }
            assert forall|i: int, j: int| start.len() <= i < moves@.len() && start.len() <= j < moves@.len() && i != j implies moves@[i] != moves@[j] by {
                crate::moves::lemma_move_squares(moves@[i]);
                crate::moves::lemma_move_squares(moves@[j]);
                if i < before.len() {
                    assert(moves@[i] == before[i]);
                    assert(!bit(b0, before[i].from_sq().0 as u64));
                }
                if j < before.len() {
                    assert(moves@[j] == before[j]);
                    assert(!bit(b0, before[j].from_sq().0 as u64));
                }
            }
            assert forall|i: int| before.len() <= i < moves@.len() implies (#[trigger] moves@[i]).from_sq() == s
                && (promote ==> promo_index(moves@[i].flag()) == i - before.len()) && (!promote ==> i == before.len()) by {
                crate::moves::lemma_move_squares(moves@[i]);
            }
            assert forall|i: int, j: int| start.len() <= i < j < moves@.len() implies sub_key(#[trigger] moves@[i]) < sub_key(#[trigger] moves@[j]) by {
                if j < before.len() {
                    assert(moves@[i] == before[i] && moves@[j] == before[j]);
                } else if i < before.len() {
                    assert(moves@[i] == before[i]);
                    assert(bit(b0, s.0 as u64));
                    assert(before[i].from_sq().0 < s.0);
                    crate::moves::lemma_move_squares(before[i]);
                }
            }
            assert forall|i: int, x: u64| start.len() <= i < moves@.len() && x < 64 && #[trigger] bit(bb, x) implies (#[trigger] moves@[i]).from_sq().0 < x by {
                assert(bit(b0, x) && x != s.0);
                if i < before.len() {
                    assert(moves@[i] == before[i]);
                }
            }
            assert forall|x: u64| x < 64 && bit(srcs, x) && !bit(bb, x) implies #[trigger] shifted_in(moves@, x as int, delta as int, flag, promote, capture) by {
                if x != s.0 {
                    assert(bit(b0, x) == false);
                    lemma_shifted_prefix(moves@, before, x as int, delta as int, flag, promote, capture);
                }
            }
        }
    }
    proof {
        assert forall|x: u64| x < 64 && bit(srcs, x) implies #[trigger] shifted_in(moves@, x as int, delta as int, flag, promote, capture) by {
            lemma_bit_ops(0u64, 0u64, x);
        }
    }
}

/// What the shifted bitboards of the pawn batch say of the pawn on `s`: its push,
/// double push and captures to the left and right are possible.
pub open spec fn square_facts(
    b: Board,
    c: Color,
    pawn_bb: u64,
    valid: u64,
    s: u64,
    push_bb: u64,
    doublepush_bb: u64,
    cap_left: u64,
    cap_right: u64,
    prom_rank: u64,
) -> bool {
    let si = s as int;
    let cells = b.cells();
    let t1 = fwd(c, si, 1);
    let t2 = fwd(c, si, 2);
    let tl = fwd(c, si, 1) - 1;
    let tr = fwd(c, si, 1) + 1;
    &&& bit(push_bb, s) ==> bit(pawn_bb, s) && 8 <= si < 56 && cells[t1] is None && bit(valid, t1 as u64)
        && (last_rank(t1) <==> bit(prom_rank, s))
    &&& bit(doublepush_bb, s) ==> bit(pawn_bb, s) && 8 <= si < 56 && start_rank(c, si) && cells[t1] is None
        && cells[t2] is None && bit(valid, t2 as u64) && !last_rank(t2)
    &&& bit(cap_left, s) ==> bit(pawn_bb, s) && 8 <= si < 56 && 0 <= tl < 64 && pawn_rel(c, si, tl) && holds(cells[tl], c.opposite())
        && bit(valid, tl as u64) && (last_rank(tl) <==> bit(prom_rank, s))
    &&& bit(cap_right, s) ==> bit(pawn_bb, s) && 8 <= si < 56 && 0 <= tr < 64 && pawn_rel(c, si, tr) && holds(cells[tr], c.opposite())
        && bit(valid, tr as u64) && (last_rank(tr) <==> bit(prom_rank, s))
    &&& bit(pawn_bb, s) ==> {
        &&& (last_rank(t1) <==> bit(prom_rank, s))
        &&& (cells[t1] is None && bit(valid, t1 as u64) ==> bit(push_bb, s))
        &&& (start_rank(c, si) && cells[t1] is None && cells[t2] is None && bit(valid, t2 as u64) ==> bit(doublepush_bb, s))
        &&& (si % 8 != 0 && holds(cells[tl], c.opposite()) && bit(valid, tl as u64) ==> bit(cap_left, s))
        &&& (si % 8 != 7 && holds(cells[tr], c.opposite()) && bit(valid, tr as u64) ==> bit(cap_right, s))
    }
}

/// What the shifted bitboards of `batch_generate_pawn_moves` say of the pawn on `s`.
#[verifier::rlimit(100)]
proof fn lemma_batch_square(
    b: Board,
    c: Color,
    pawn_bb: u64,
    valid: u64,
    s: u64,
    r: u32,
    push_bb: u64,
    doublepush_bb: u64,
    cap_left: u64,
    cap_right: u64,
    prom_rank: u64,
)
    requires
        b.wf(),
        s < 64,
        bit(pawn_bb, s) ==> 8 <= s < 56 && b.cells()[s as int] == Some((c, Piece::Pawn)),
        r == (match c {
            Color::White => 8u32,
            Color::Black => 56u32,
        }),
        bit(push_bb, s) == (bit(pawn_bb, s) && bit(!b.all_bb() & valid, ((s + r) % 64) as u64)),
        bit(doublepush_bb, s) == (bit(pawn_bb, s) && bit(BASE_RANKS, ((s + 64 - (r % 64)) % 64) as u64)
            && bit(!b.all_bb(), ((s + r) % 64) as u64) && bit(
            !b.all_bb() & valid,
            ((s + (r * 2) as u32) % 64) as u64,
        )),
        bit(cap_left, s) == (bit(pawn_bb, s) && !bit(FILE_A, s) && bit(
            b.color_bb(c.opposite()) & valid,
            ((s + (r - 1) as u32) % 64) as u64,
        )),
        bit(cap_right, s) == (bit(pawn_bb, s) && !bit(FILE_H, s) && bit(
            b.color_bb(c.opposite()) & valid,
            ((s + (r + 1) as u32) % 64) as u64,
        )),
        bit(prom_rank, s) == bit(BASE_RANKS, ((s + r) % 64) as u64),
    ensures
        square_facts(b, c, pawn_bb, valid, s, push_bb, doublepush_bb, cap_left, cap_right, prom_rank),
{
    let si = s as int;
    let occ = b.all_bb();
    let co = c.opposite();
    lemma_masks(s);
    if bit(pawn_bb, s) {
        assert(8 <= s < 56);
        let up = ((s + r) % 64) as u64;
        let up2 = ((s + (r * 2) as u32) % 64) as u64;
        let back = ((s + 64 - (r % 64)) % 64) as u64;
        let ul = ((s + (r - 1) as u32) % 64) as u64;
        let ur = ((s + (r + 1) as u32) % 64) as u64;
        match c {
            Color::White => {
                assert(up == s + 8);
                assert(s < 48 ==> up2 == s + 16);
                assert(back == s - 8);
                assert(ul == s + 7);
                assert(s < 55 ==> ur == s + 9);
            },
            Color::Black => {
                assert(up == s - 8 && back == s + 8);
                assert(s >= 16 ==> up2 == s - 16);
                assert(s >= 9 ==> ul == s - 9);
                assert(ur == s - 7);
            },
        }
        lemma_masks(up);
        lemma_masks(back);
        lemma_bit_ops(!occ, valid, up);
        lemma_bit_ops(occ, occ, up);
        if up2 < 64 {
            lemma_bit_ops(!occ, valid, up2);
            lemma_bit_ops(occ, occ, up2);
        }
        lemma_bit_ops(b.color_bb(co), valid, ul);
        lemma_bit_ops(b.color_bb(co), valid, ur);
        assert(bit(occ, up) <==> b.cells()[up as int] is Some);
        assert(bit(occ, up2) <==> b.cells()[up2 as int] is Some);
        assert(bit(b.color_bb(co), ul) <==> holds(b.cells()[ul as int], co));
        assert(bit(b.color_bb(co), ur) <==> holds(b.cells()[ur as int], co));
    }
}

/// `square_facts` for every square, from what the shifts and masks compute.
proof fn lemma_batch_all(
    b: Board,
    c: Color,
    pawn_bb: u64,
    valid: u64,
    r: u32,
    ev_rot: u64,
    base_from: u64,
    e_rot: u64,
    ev_rot2: u64,
    oev_left: u64,
    oev_right: u64,
    push_bb: u64,
    doublepush_bb: u64,
    cap_left: u64,
    cap_right: u64,
    prom_rank: u64,
)
    requires
        b.wf(),
        forall|x: u64|
            x < 64 && #[trigger] bit(pawn_bb, x) ==> 8 <= x < 56 && b.cells()[x as int] == Some(
                (c, Piece::Pawn),
            ),
        r == (match c {
            Color::White => 8u32,
            Color::Black => 56u32,
        }),
        forall|i: u64| i < 64 ==> #[trigger] bit(ev_rot, i) == bit(!b.all_bb() & valid, ((i + r) % 64) as u64),
        forall|i: u64| i < 64 ==> #[trigger] bit(base_from, i) == bit(BASE_RANKS, ((i + 64 - (r % 64)) % 64) as u64),
        forall|i: u64| i < 64 ==> #[trigger] bit(e_rot, i) == bit(!b.all_bb(), ((i + r) % 64) as u64),
        forall|i: u64| i < 64 ==> #[trigger] bit(ev_rot2, i) == bit(!b.all_bb() & valid, ((i + (r * 2) as u32) % 64) as u64),
        forall|i: u64| i < 64 ==> #[trigger] bit(oev_left, i) == bit(b.color_bb(c.opposite()) & valid, ((i + (r - 1) as u32) % 64) as u64),
        forall|i: u64| i < 64 ==> #[trigger] bit(oev_right, i) == bit(b.color_bb(c.opposite()) & valid, ((i + (r + 1) as u32) % 64) as u64),
        forall|i: u64| i < 64 ==> #[trigger] bit(prom_rank, i) == bit(BASE_RANKS, ((i + r) % 64) as u64),
        push_bb == pawn_bb & ev_rot,
        doublepush_bb == pawn_bb & base_from & e_rot & ev_rot2,
        cap_left == pawn_bb & !FILE_A & oev_left,
        cap_right == pawn_bb & !FILE_H & oev_right,
    ensures
        forall|s: u64|
            s < 64 ==> #[trigger] square_facts(b, c, pawn_bb, valid, s, push_bb, doublepush_bb, cap_left, cap_right, prom_rank),
{
    assert forall|s: u64| s < 64 implies #[trigger] square_facts(b, c, pawn_bb, valid, s, push_bb, doublepush_bb, cap_left, cap_right, prom_rank) by {
        lemma_bit_ops(pawn_bb, ev_rot, s);
        lemma_bit_ops(pawn_bb & base_from & e_rot, ev_rot2, s);
        lemma_bit_ops(pawn_bb & base_from, e_rot, s);
        lemma_bit_ops(pawn_bb, base_from, s);
        lemma_bit_ops(pawn_bb & !FILE_A, oev_left, s);
        lemma_bit_ops(pawn_bb, !FILE_A, s);
        lemma_bit_ops(FILE_A, FILE_A, s);
        lemma_bit_ops(pawn_bb & !FILE_H, oev_right, s);
        lemma_bit_ops(pawn_bb, !FILE_H, s);
        lemma_bit_ops(FILE_H, FILE_H, s);
        lemma_batch_square(b, c, pawn_bb, valid, s, r, push_bb, doublepush_bb, cap_left, cap_right, prom_rank);
    }
}

/// A move of the pawn batch: from a square of `pawn_bb`, a pawn move or an en passant
/// capture allowed onto `valid`.
pub open spec fn batch_move_ok(b: Board, si: StateInfo, c: Color, pawn_bb: u64, m: Move, valid: u64) -> bool {
    &&& bit(pawn_bb, m.from_sq().0 as u64)
    &&& (pawn_move_ok(b.cells(), c, m.from_sq().0 as int, m, valid) || ep_move_ok(
        b,
        si,
        c,
        m.from_sq().0 as int,
        m,
        valid,
    ))
}

/// Every move of the pawn on `f` (en passant included) onto `valid` is in `moves`.
pub open spec fn pawn_moves_in(moves: Seq<Move>, b: Board, si: StateInfo, c: Color, f: int, valid: u64) -> bool {
    forall|m: Move|
        (pawn_move_ok(b.cells(), c, f, m, valid) || ep_move_ok(b, si, c, f, m, valid)) ==> #[trigger] moves.contains(m)
}

proof fn lemma_pawn_moves_prefix(big: Seq<Move>, pre: Seq<Move>, b: Board, si: StateInfo, c: Color, f: int, valid: u64)
    requires
        pawn_moves_in(pre, b, si, c, f, valid),
        big.len() >= pre.len(),
        big.subrange(0, pre.len() as int) == pre,
    ensures
        pawn_moves_in(big, b, si, c, f, valid),
{
    assert forall|m: Move|
        (pawn_move_ok(b.cells(), c, f, m, valid) || ep_move_ok(b, si, c, f, m, valid)) implies #[trigger] big.contains(m) by {
        assert(pre.contains(m));
        lemma_contains_prefix(big, pre, m);
    }
}

/// The pawn on `f` captures on `t`, to the left (towards the a-file, as seen from White)
/// or to the right.
proof fn lemma_pawn_rel_sides(c: Color, f: int, t: int)
    requires
        0 <= f < 64,
        0 <= t < 64,
        pawn_rel(c, f, t),
    ensures
        (t == fwd(c, f, 1) - 1 && f % 8 != 0) || (t == fwd(c, f, 1) + 1 && f % 8 != 7),
{
    crate::geometry::lemma_sq_decompose(f);
    crate::geometry::lemma_sq_decompose(t);
}

/// Which part of the batch generator produces a pawn move, by its flag and by how far
/// its target lies from its source (`pd` the push distance): plain pushes, double
/// pushes, push promotions, captures and capturing promotions to each side, en passant
/// to the right, then to the left.
pub open spec fn batch_stage(m: Move, pd: int) -> int {
    let d = m.to_sq().0 - m.from_sq().0;
    let fl = m.flag();
    if fl == MoveFlag::Quiet {
        1
    } else if fl == MoveFlag::DoublePawnPush {
        2
    } else if fl.spec_is_promotion() && !fl.spec_is_capture() {
        3
    } else if fl == MoveFlag::Capture && d == pd - 1 {
        4
    } else if fl.spec_is_promotion() && fl.spec_is_capture() && d == pd - 1 {
        5
    } else if fl == MoveFlag::Capture {
        6
    } else if fl.spec_is_promotion() && fl.spec_is_capture() {
        7
    } else if d == pd + 1 {
        8
    } else {
        9
    }
}

/// Appending pairwise different moves of a later stage keeps all moves different.
proof fn lemma_stage_append(prev: Seq<Move>, next: Seq<Move>, start: int, pd: int, k: int)
    requires
        0 <= start <= prev.len() <= next.len(),
        next.subrange(0, prev.len() as int) == prev,
        distinct_after(prev, start),
        distinct_after(next, prev.len() as int),
        forall|i: int| start <= i < prev.len() ==> batch_stage(#[trigger] prev[i], pd) < k,
        forall|i: int| prev.len() <= i < next.len() ==> batch_stage(#[trigger] next[i], pd) == k,
        keys_increasing(prev, start, pd),
        forall|i: int, j: int| prev.len() <= i < j < next.len() ==> sub_key(#[trigger] next[i]) < sub_key(#[trigger] next[j]),
    ensures
        distinct_after(next, start),
        forall|i: int| start <= i < next.len() ==> batch_stage(#[trigger] next[i], pd) <= k,
        keys_increasing(next, start, pd),
{
    assert forall|i: int, j: int| start <= i < j < next.len() implies order_key(#[trigger] next[i], pd) < order_key(#[trigger] next[j], pd) by {
        crate::moves::lemma_move_squares(next[i]);
        crate::moves::lemma_move_squares(next[j]);
        if j < prev.len() {
            assert(next[i] == prev[i] && next[j] == prev[j]);
        } else if i < prev.len() {
            assert(next[i] == prev[i]);
            assert(batch_stage(next[i], pd) < k);
        }
    }
    assert forall|i: int| start <= i < prev.len() implies next[i] == prev[i] by {
        assert(next.subrange(0, prev.len() as int)[i] == next[i]);
    }
    assert forall|i: int| start <= i < next.len() implies batch_stage(#[trigger] next[i], pd) <= k by {
        if i < prev.len() {
            assert(next[i] == prev[i]);
        }
    }
    assert forall|i: int, j: int| start <= i < next.len() && start <= j < next.len() && i != j implies next[i] != next[j] by {
        if i < prev.len() {
            assert(next[i] == prev[i]);
            assert(batch_stage(next[i], pd) < k);
        }
        if j < prev.len() {
            assert(next[j] == prev[j]);
            assert(batch_stage(next[j], pd) < k);
        }
    }
}

/// Adds the moves of the pawns of colour `c` on `pawn_bb` to squares of
/// `valid_destinations`, shifting whole bitboards at once when there are two pawns or
/// more.
#[verifier::rlimit(40)]
pub fn batch_generate_pawn_moves(
    board: &Board,
    pawn_bb: u64,
    c: Color,
    moves: &mut Vec<Move>,
    state_info: &StateInfo,
    valid_destinations: u64,
)
    requires
        board.wf(),
        board.has_piece(c, Piece::King),
        ep_square_placed(*state_info, c),
        forall|s: u64|
            s < 64 && #[trigger] bit(pawn_bb, s) ==> 8 <= s < 56 && board.cells()[s as int] == Some(
                (c, Piece::Pawn),
            ),
    ensures
        extends(
            final(moves)@,
            old(moves)@,
            |m: Move| batch_move_ok(*board, *state_info, c, pawn_bb, m, valid_destinations),
        ),
        forall|m: Move| batch_move_ok(*board, *state_info, c, pawn_bb, m, valid_destinations) ==> #[trigger] final(moves)@.contains(m),
        distinct_after(final(moves)@, old(moves)@.len() as int),
        keys_increasing(final(moves)@, old(moves)@.len() as int, fwd(c, 0, 1)),
{
    let ghost start = moves@;
    let ghost cells = board.cells();
    let ghost pb = |m: Move| batch_move_ok(*board, *state_info, c, pawn_bb, m, valid_destinations);
    proof {
        assert(moves@.subrange(0, start.len() as int) =~= start);
    }
    if pawn_bb == 0 || pawn_bb & (pawn_bb - 1) == 0 {
        let mut it = pawn_bb;
        while it != 0
            invariant
                board.wf(),
                board.has_piece(c, Piece::King),
                ep_square_placed(*state_info, c),
                forall|s: u64| s < 64 && #[trigger] bit(it, s) ==> bit(pawn_bb, s),
                forall|s: u64|
                    s < 64 && #[trigger] bit(pawn_bb, s) ==> 8 <= s < 56 && board.cells()[s as int]
                        == Some((c, Piece::Pawn)),
                pb == (|m: Move| batch_move_ok(*board, *state_info, c, pawn_bb, m, valid_destinations)),
                extends(moves@, start, pb),
                forall|s: u64|
                    s < 64 && bit(pawn_bb, s) && !bit(it, s) ==> #[trigger] pawn_moves_in(
                        moves@,
                        *board,
                        *state_info,
                        c,
                        s as int,
                        valid_destinations,
                    ),
                distinct_after(moves@, start.len() as int),
                forall|i: int| start.len() <= i < moves@.len() ==> !bit(it, (#[trigger] moves@[i]).from_sq().0 as u64),
                pawn_bb == 0 || pawn_bb & ((pawn_bb - 1) as u64) == 0,
                moves@.len() > start.len() ==> it == 0,
                keys_increasing(moves@, start.len() as int, fwd(c, 0, 1)),
            decreases it,
        {
            let ghost i0 = it;
            let pawn_sq = pop_lsb(&mut it);
            proof {
                assert(bit(pawn_bb, pawn_sq.0 as u64));
                lemma_bit_ops(0u64, 0u64, pawn_sq.0 as u64);
                assert(pawn_bb != 0);
                crate::bits::lemma_pop_lsb(pawn_bb);
                let tz = vstd::std_specs::bits::u64_trailing_zeros(pawn_bb) as u64;
                assert forall|x: u64| x < 64 && bit(pawn_bb, x) implies x == tz by {
                    lemma_bit_ops(0u64, 0u64, x);
                }
                assert forall|x: u64| x < 64 implies #[trigger] bit(it, x) == bit(0u64, x) by {
                    lemma_bit_ops(0u64, 0u64, x);
                    if bit(it, x) {
                        assert(bit(i0, x) && bit(pawn_bb, x));
                        assert(bit(pawn_bb, pawn_sq.0 as u64));
                    }
                }
                crate::bits::lemma_bit_ext(it, 0u64);
                assert(moves@.subrange(0, start.len() as int) == start);
                assert(moves@ =~= start);
            }
            proof {
                assert(bit(pawn_bb, pawn_sq.0 as u64));
            }
            let ghost before = moves@;
            generate_pawn_moves(board, pawn_sq, c, moves, state_info, valid_destinations);
            proof {
                let f = pawn_sq.0 as int;
                let q = |m: Move| m.from_sq().0 == f && (pawn_move_ok(board.cells(), c, f, m, valid_destinations)
                    || ep_move_ok(*board, *state_info, c, f, m, valid_destinations));
                assert forall|i: int| before.len() <= i < moves@.len() implies q(#[trigger] moves@[i]) by {
                    let m = moves@[i];
                    assert(pawn_move_ok(board.cells(), c, f, m, valid_destinations)
                        || ep_move_ok(*board, *state_info, c, f, m, valid_destinations));
                }
                assert(extends(moves@, before, q));
                lemma_extends_chain(start, before, moves@, pb, q);
                assert(pawn_moves_in(moves@, *board, *state_info, c, f, valid_destinations));
                assert forall|i: int| start.len() <= i < moves@.len() implies !bit(it, (#[trigger] moves@[i]).from_sq().0 as u64) by {
                    crate::moves::lemma_move_squares(moves@[i]);
                    if i < before.len() {
                        assert(moves@[i] == before[i]);
                    } else {
                        assert(q(moves@[i]));
                    }
                }
                assert forall|i: int, j: int| start.len() <= i < moves@.len() && start.len() <= j < moves@.len() && i != j implies moves@[i] != moves@[j] by {
                    crate::moves::lemma_move_squares(moves@[i]);
                    crate::moves::lemma_move_squares(moves@[j]);
                    if i < before.len() {
                        assert(moves@[i] == before[i]);
                        assert(!bit(i0, before[i].from_sq().0 as u64));
                    } else {
                        assert(q(moves@[i]));
                    }
                    if j < before.len() {
                        assert(moves@[j] == before[j]);
                        assert(!bit(i0, before[j].from_sq().0 as u64));
                    } else {
                        assert(q(moves@[j]));
                    }
                }
                assert forall|x: u64|
                    x < 64 && bit(pawn_bb, x) && !bit(it, x) implies #[trigger] pawn_moves_in(
                    moves@,
                    *board,
                    *state_info,
                    c,
                    x as int,
                    valid_destinations,
                ) by {
                    if x != pawn_sq.0 {
                        assert(!bit(i0, x));
                        lemma_pawn_moves_prefix(moves@, before, *board, *state_info, c, x as int, valid_destinations);
                    }
                }
            }
        }
        proof {
            assert forall|m: Move| batch_move_ok(*board, *state_info, c, pawn_bb, m, valid_destinations) implies #[trigger] moves@.contains(m) by {
                let f = m.from_sq().0 as u64;
                crate::moves::lemma_move_squares(m);
                lemma_bit_ops(0u64, 0u64, f);
                assert(pawn_moves_in(moves@, *board, *state_info, c, f as int, valid_destinations));
            }
        }
        return ;
    }
    let occ = board.occ();
    let empty = !occ;
    let empty_valid = !occ & valid_destinations;
    let occ_enemy_valid = board.occ_enemy(c) & valid_destinations;
    let rotate_shift: u32 = match c {
        Color::White => 8,
        Color::Black => 56,
    };
    let push_delta: i8 = match c {
        Color::White => 8,
        Color::Black => -8,
    };
    let ghost pd = push_delta as int;
    proof {
        assert(distinct_after(moves@, start.len() as int));
        assert forall|i: int| start.len() <= i < moves@.len() implies batch_stage(#[trigger] moves@[i], pd) < 1 by {}
    }
    let ev_rot = rotate_right(empty_valid, rotate_shift);
    let push_bb = pawn_bb & ev_rot;
    let base_from = rotate_left(BASE_RANKS, rotate_shift);
    let e_rot = rotate_right(empty, rotate_shift);
    let ev_rot2 = rotate_right(empty_valid, rotate_shift * 2);
    let doublepush_bb = pawn_bb & base_from & e_rot & ev_rot2;
    let oev_left = rotate_right(occ_enemy_valid, rotate_shift - 1);
    let cap_left = pawn_bb & !FILE_A & oev_left;
    let oev_right = rotate_right(occ_enemy_valid, rotate_shift + 1);
    let cap_right = pawn_bb & !FILE_H & oev_right;
    let prom_rank = rotate_right(BASE_RANKS, rotate_shift);
    let n_prom_rank = !prom_rank;
    proof {
        lemma_batch_all(
            *board,
            c,
            pawn_bb,
            valid_destinations,
            rotate_shift,
            ev_rot,
            base_from,
            e_rot,
            ev_rot2,
            oev_left,
            oev_right,
            push_bb,
            doublepush_bb,
            cap_left,
            cap_right,
            prom_rank,
        );
        assert(push_delta as int == fwd(c, 0, 1));
    }
    let srcs1 = push_bb & n_prom_rank;
    let d1: i8 = push_delta;
    proof {
        assert forall|s: u64| s < 64 && #[trigger] bit(srcs1, s) implies 0 <= s + d1 < 64 by {
            lemma_bit_ops(push_bb, n_prom_rank, s);
            lemma_bit_ops(prom_rank, prom_rank, s);
            assert(square_facts(*board, c, pawn_bb, valid_destinations, s, push_bb, doublepush_bb, cap_left, cap_right, prom_rank));
        }
    }
    let ghost before = moves@;
    push_shifted(moves, srcs1, d1, MoveFlag::Quiet, false, false);
    let ghost s1 = moves@;
    proof {
        assert forall|i: int| before.len() <= i < moves@.len() implies batch_stage(#[trigger] moves@[i], pd) == 1 by {
            assert(shifted_move(moves@[i], srcs1, d1 as int, MoveFlag::Quiet, false, false));
        }
        lemma_stage_append(before, moves@, start.len() as int, pd, 1);
        let q = |m: Move| shifted_move(m, srcs1, d1 as int, MoveFlag::Quiet, false, false);
        assert forall|m: Move| #[trigger] q(m) implies pb(m) by {
            let s = m.from_sq().0 as u64;
            crate::moves::lemma_move_squares(m);
            lemma_bit_ops(push_bb, n_prom_rank, s);
            lemma_bit_ops(prom_rank, prom_rank, s);
            assert(square_facts(*board, c, pawn_bb, valid_destinations, s, push_bb, doublepush_bb, cap_left, cap_right, prom_rank));
        }
        lemma_extends_chain(start, before, moves@, pb, q);
    }
    let srcs2 = doublepush_bb & base_from;
    let d2: i8 = push_delta * 2;
    proof {
        assert forall|s: u64| s < 64 && #[trigger] bit(srcs2, s) implies 0 <= s + d2 < 64 by {
            lemma_bit_ops(doublepush_bb, base_from, s);
            assert(square_facts(*board, c, pawn_bb, valid_destinations, s, push_bb, doublepush_bb, cap_left, cap_right, prom_rank));
        }
    }
    let ghost before = moves@;
    push_shifted(moves, srcs2, d2, MoveFlag::DoublePawnPush, false, false);
    let ghost s2 = moves@;
    proof {
        assert forall|i: int| before.len() <= i < moves@.len() implies batch_stage(#[trigger] moves@[i], pd) == 2 by {
            assert(shifted_move(moves@[i], srcs2, d2 as int, MoveFlag::DoublePawnPush, false, false));
        }
        lemma_stage_append(before, moves@, start.len() as int, pd, 2);
        let q = |m: Move| shifted_move(m, srcs2, d2 as int, MoveFlag::DoublePawnPush, false, false);
        assert forall|m: Move| #[trigger] q(m) implies pb(m) by {
            let s = m.from_sq().0 as u64;
            crate::moves::lemma_move_squares(m);
            lemma_bit_ops(doublepush_bb, base_from, s);
            assert(square_facts(*board, c, pawn_bb, valid_destinations, s, push_bb, doublepush_bb, cap_left, cap_right, prom_rank));
        }
        lemma_extends_chain(start, before, moves@, pb, q);
    }
    let srcs3 = push_bb & prom_rank;
    let d3: i8 = push_delta;
    proof {
        assert forall|s: u64| s < 64 && #[trigger] bit(srcs3, s) implies 0 <= s + d3 < 64 by {
            lemma_bit_ops(push_bb, prom_rank, s);
            assert(square_facts(*board, c, pawn_bb, valid_destinations, s, push_bb, doublepush_bb, cap_left, cap_right, prom_rank));
        }
    }
    let ghost before = moves@;
    push_shifted(moves, srcs3, d3, MoveFlag::Quiet, true, false);
    let ghost s3 = moves@;
    proof {
        assert forall|i: int| before.len() <= i < moves@.len() implies batch_stage(#[trigger] moves@[i], pd) == 3 by {
            assert(shifted_move(moves@[i], srcs3, d3 as int, MoveFlag::Quiet, true, false));
        }
        lemma_stage_append(before, moves@, start.len() as int, pd, 3);
        let q = |m: Move| shifted_move(m, srcs3, d3 as int, MoveFlag::Quiet, true, false);
        assert forall|m: Move| #[trigger] q(m) implies pb(m) by {
            let s = m.from_sq().0 as u64;
            crate::moves::lemma_move_squares(m);
            lemma_bit_ops(push_bb, prom_rank, s);
            assert(square_facts(*board, c, pawn_bb, valid_destinations, s, push_bb, doublepush_bb, cap_left, cap_right, prom_rank));
        }
        lemma_extends_chain(start, before, moves@, pb, q);
    }
    let srcs4 = cap_left & n_prom_rank;
    let d4: i8 = push_delta - 1;
    proof {
        assert forall|s: u64| s < 64 && #[trigger] bit(srcs4, s) implies 0 <= s + d4 < 64 by {
            lemma_bit_ops(cap_left, n_prom_rank, s);
            lemma_bit_ops(prom_rank, prom_rank, s);
            assert(square_facts(*board, c, pawn_bb, valid_destinations, s, push_bb, doublepush_bb, cap_left, cap_right, prom_rank));
        }
    }
    let ghost before = moves@;
    push_shifted(moves, srcs4, d4, MoveFlag::Capture, false, false);
    let ghost s4 = moves@;
    proof {
        assert forall|i: int| before.len() <= i < moves@.len() implies batch_stage(#[trigger] moves@[i], pd) == 4 by {
            assert(shifted_move(moves@[i], srcs4, d4 as int, MoveFlag::Capture, false, false));
        }
        lemma_stage_append(before, moves@, start.len() as int, pd, 4);
        let q = |m: Move| shifted_move(m, srcs4, d4 as int, MoveFlag::Capture, false, false);
        assert forall|m: Move| #[trigger] q(m) implies pb(m) by {
            let s = m.from_sq().0 as u64;
            crate::moves::lemma_move_squares(m);
            lemma_bit_ops(cap_left, n_prom_rank, s);
            lemma_bit_ops(prom_rank, prom_rank, s);
            assert(square_facts(*board, c, pawn_bb, valid_destinations, s, push_bb, doublepush_bb, cap_left, cap_right, prom_rank));
        }
        lemma_extends_chain(start, before, moves@, pb, q);
    }
    let srcs5 = cap_left & prom_rank;
    let d5: i8 = push_delta - 1;
    proof {
        assert forall|s: u64| s < 64 && #[trigger] bit(srcs5, s) implies 0 <= s + d5 < 64 by {
            lemma_bit_ops(cap_left, prom_rank, s);
            assert(square_facts(*board, c, pawn_bb, valid_destinations, s, push_bb, doublepush_bb, cap_left, cap_right, prom_rank));
        }
    }
    let ghost before = moves@;
    push_shifted(moves, srcs5, d5, MoveFlag::Capture, true, true);
    let ghost s5 = moves@;
    proof {
        assert forall|i: int| before.len() <= i < moves@.len() implies batch_stage(#[trigger] moves@[i], pd) == 5 by {
            assert(shifted_move(moves@[i], srcs5, d5 as int, MoveFlag::Capture, true, true));
        }
        lemma_stage_append(before, moves@, start.len() as int, pd, 5);
        let q = |m: Move| shifted_move(m, srcs5, d5 as int, MoveFlag::Capture, true, true);
        assert forall|m: Move| #[trigger] q(m) implies pb(m) by {
            let s = m.from_sq().0 as u64;
            crate::moves::lemma_move_squares(m);
            lemma_bit_ops(cap_left, prom_rank, s);
            assert(square_facts(*board, c, pawn_bb, valid_destinations, s, push_bb, doublepush_bb, cap_left, cap_right, prom_rank));
        }
        lemma_extends_chain(start, before, moves@, pb, q);
    }
    let srcs6 = cap_right & n_prom_rank;
    let d6: i8 = push_delta + 1;
    proof {
        assert forall|s: u64| s < 64 && #[trigger] bit(srcs6, s) implies 0 <= s + d6 < 64 by {
            lemma_bit_ops(cap_right, n_prom_rank, s);
            lemma_bit_ops(prom_rank, prom_rank, s);
            assert(square_facts(*board, c, pawn_bb, valid_destinations, s, push_bb, doublepush_bb, cap_left, cap_right, prom_rank));
        }
    }
    let ghost before = moves@;
    push_shifted(moves, srcs6, d6, MoveFlag::Capture, false, false);
    let ghost s6 = moves@;
    proof {
        assert forall|i: int| before.len() <= i < moves@.len() implies batch_stage(#[trigger] moves@[i], pd) == 6 by {
            assert(shifted_move(moves@[i], srcs6, d6 as int, MoveFlag::Capture, false, false));
        }
        lemma_stage_append(before, moves@, start.len() as int, pd, 6);
        let q = |m: Move| shifted_move(m, srcs6, d6 as int, MoveFlag::Capture, false, false);
        assert forall|m: Move| #[trigger] q(m) implies pb(m) by {
            let s = m.from_sq().0 as u64;
            crate::moves::lemma_move_squares(m);
            lemma_bit_ops(cap_right, n_prom_rank, s);
            lemma_bit_ops(prom_rank, prom_rank, s);
            assert(square_facts(*board, c, pawn_bb, valid_destinations, s, push_bb, doublepush_bb, cap_left, cap_right, prom_rank));
        }
        lemma_extends_chain(start, before, moves@, pb, q);
    }
    let srcs7 = cap_right & prom_rank;
    let d7: i8 = push_delta + 1;
    proof {
        assert forall|s: u64| s < 64 && #[trigger] bit(srcs7, s) implies 0 <= s + d7 < 64 by {
            lemma_bit_ops(cap_right, prom_rank, s);
            assert(square_facts(*board, c, pawn_bb, valid_destinations, s, push_bb, doublepush_bb, cap_left, cap_right, prom_rank));
        }
    }
    let ghost before = moves@;
    push_shifted(moves, srcs7, d7, MoveFlag::Capture, true, true);
    let ghost s7 = moves@;
    proof {
        assert forall|i: int| before.len() <= i < moves@.len() implies batch_stage(#[trigger] moves@[i], pd) == 7 by {
            assert(shifted_move(moves@[i], srcs7, d7 as int, MoveFlag::Capture, true, true));
        }
        lemma_stage_append(before, moves@, start.len() as int, pd, 7);
        let q = |m: Move| shifted_move(m, srcs7, d7 as int, MoveFlag::Capture, true, true);
        assert forall|m: Move| #[trigger] q(m) implies pb(m) by {
            let s = m.from_sq().0 as u64;
            crate::moves::lemma_move_squares(m);
            lemma_bit_ops(cap_right, prom_rank, s);
            assert(square_facts(*board, c, pawn_bb, valid_destinations, s, push_bb, doublepush_bb, cap_left, cap_right, prom_rank));
        }
        lemma_extends_chain(start, before, moves@, pb, q);
    }
    proof {
        lemma_prefix_trans(s1, s2, s3);
        lemma_prefix_trans(s1, s3, s4);
        lemma_prefix_trans(s1, s4, s5);
        lemma_prefix_trans(s1, s5, s6);
        lemma_prefix_trans(s1, s6, s7);
        lemma_prefix_trans(s2, s3, s4);
        lemma_prefix_trans(s2, s4, s5);
        lemma_prefix_trans(s2, s5, s6);
        lemma_prefix_trans(s2, s6, s7);
        lemma_prefix_trans(s3, s4, s5);
        lemma_prefix_trans(s3, s5, s6);
        lemma_prefix_trans(s3, s6, s7);
        lemma_prefix_trans(s4, s5, s6);
        lemma_prefix_trans(s4, s6, s7);
        lemma_prefix_trans(s5, s6, s7);
        assert(s7.subrange(0, s7.len() as int) =~= s7);
    }
    // every pawn move but en passant is in the list by now
    proof {
        assert forall|m: Move|
            bit(pawn_bb, m.from_sq().0 as u64) && pawn_move_ok(cells, c, m.from_sq().0 as int, m, valid_destinations)
                implies #[trigger] s7.contains(m) by {
            let f = m.from_sq().0 as u64;
            let fi = f as int;
            let t = m.to_sq().0 as int;
            crate::moves::lemma_move_squares(m);
            crate::movegen::lemma_packed(m);
            assert(square_facts(*board, c, pawn_bb, valid_destinations, f, push_bb, doublepush_bb, cap_left, cap_right, prom_rank));
            lemma_bit_ops(push_bb, n_prom_rank, f);
            lemma_bit_ops(push_bb, prom_rank, f);
            lemma_bit_ops(prom_rank, prom_rank, f);
            lemma_bit_ops(cap_left, n_prom_rank, f);
            lemma_bit_ops(cap_left, prom_rank, f);
            lemma_bit_ops(cap_right, n_prom_rank, f);
            lemma_bit_ops(cap_right, prom_rank, f);
            lemma_bit_ops(doublepush_bb, base_from, f);
            lemma_bit_ops(pawn_bb & base_from & e_rot, ev_rot2, f);
            lemma_bit_ops(pawn_bb & base_from, e_rot, f);
            lemma_bit_ops(pawn_bb, base_from, f);
            if m.flag() == MoveFlag::DoublePawnPush {
                assert(bit(srcs2, f));
                assert(shifted_in(s2, fi, d2 as int, MoveFlag::DoublePawnPush, false, false));
                lemma_shifted_prefix(s7, s2, fi, d2 as int, MoveFlag::DoublePawnPush, false, false);
            } else if t == fwd(c, fi, 1) && cells[t] is None && (m.flag() == MoveFlag::Quiet || (m.flag().spec_is_promotion() && !m.flag().spec_is_capture())) {
                if last_rank(t) {
                    assert(bit(srcs3, f));
                    assert(shifted_in(s3, fi, d3 as int, MoveFlag::Quiet, true, false));
                    lemma_shifted_prefix(s7, s3, fi, d3 as int, MoveFlag::Quiet, true, false);
                } else {
                    assert(bit(srcs1, f));
                    assert(shifted_in(s1, fi, d1 as int, MoveFlag::Quiet, false, false));
                    lemma_shifted_prefix(s7, s1, fi, d1 as int, MoveFlag::Quiet, false, false);
                }
            } else {
                lemma_pawn_rel_sides(c, fi, t);
                if t == fwd(c, fi, 1) - 1 && fi % 8 != 0 {
                    if last_rank(t) {
                        assert(bit(srcs5, f));
                        assert(shifted_in(s5, fi, d5 as int, MoveFlag::Capture, true, true));
                        lemma_shifted_prefix(s7, s5, fi, d5 as int, MoveFlag::Capture, true, true);
                    } else {
                        assert(bit(srcs4, f));
                        assert(shifted_in(s4, fi, d4 as int, MoveFlag::Capture, false, false));
                        lemma_shifted_prefix(s7, s4, fi, d4 as int, MoveFlag::Capture, false, false);
                    }
                } else {
                    if last_rank(t) {
                        assert(bit(srcs7, f));
                        assert(shifted_in(s7, fi, d7 as int, MoveFlag::Capture, true, true));
                    } else {
                        assert(bit(srcs6, f));
                        assert(shifted_in(s6, fi, d6 as int, MoveFlag::Capture, false, false));
                        lemma_shifted_prefix(s7, s6, fi, d6 as int, MoveFlag::Capture, false, false);
                    }
                }
            }
        }
    }
    let ghost before_ep = moves@;
    proof {
        assert(moves@.subrange(0, before_ep.len() as int) =~= before_ep);
    }
    match state_info.ep_square {
        Some(ep_sq) => {
            let right_from_d: i8 = push_delta + 1;
            let right_from = ep_sq.offset(-right_from_d);
            if right_from.is_on_bb(pawn_bb & !FILE_H) {
                let mask = ep_sq.mask();
                proof {
                    let f = right_from.0 as u64;
                    lemma_bit_ops(pawn_bb, !FILE_H, f);
                    lemma_bit_ops(FILE_H, FILE_H, f);
                    lemma_masks(f);
                    assert forall|t: u64| t < 64 && #[trigger] bit(mask, t) implies pawn_rel(c, f as int, t as int) by {
                        lemma_bit_or_single(0u64, ep_sq.0 as u64, t);
                    }
                    lemma_bit_or_single(0u64, ep_sq.0 as u64, ep_sq.0 as u64);
                }
                let ghost before = moves@;
                generate_ep_move(board, right_from, c, moves, state_info, valid_destinations, mask);
                proof {
                    assert(right_from.0 + right_from_d == ep_sq.0);
                    assert forall|i: int| before.len() <= i < moves@.len() implies batch_stage(#[trigger] moves@[i], pd) == 8 by {
                        assert(ep_move_ok(*board, *state_info, c, right_from.0 as int, moves@[i], valid_destinations));
                    }
                    lemma_stage_append(before, moves@, start.len() as int, pd, 8);
                    let f = right_from.0 as int;
                    let q = |m: Move| ep_move_ok(*board, *state_info, c, f, m, valid_destinations);
                    assert(extends(moves@, before, q));
                    lemma_extends_chain(start, before, moves@, pb, q);
                    lemma_prefix_trans(before_ep, before, moves@);
                }
            }
            let ghost mid = moves@;
            proof {
                assert(moves@.subrange(0, mid.len() as int) =~= mid);
                assert(distinct_after(moves@, start.len() as int));
                assert forall|i: int| start.len() <= i < moves@.len() implies batch_stage(#[trigger] moves@[i], pd) < 9 by {}
            }
            let left_from_d: i8 = push_delta - 1;
            let left_from = ep_sq.offset(-left_from_d);
            if left_from.is_on_bb(pawn_bb & !FILE_A) {
                let mask = ep_sq.mask();
                proof {
                    let f = left_from.0 as u64;
                    lemma_bit_ops(pawn_bb, !FILE_A, f);
                    lemma_bit_ops(FILE_A, FILE_A, f);
                    lemma_masks(f);
                    assert forall|t: u64| t < 64 && #[trigger] bit(mask, t) implies pawn_rel(c, f as int, t as int) by {
                        lemma_bit_or_single(0u64, ep_sq.0 as u64, t);
                    }
                    lemma_bit_or_single(0u64, ep_sq.0 as u64, ep_sq.0 as u64);
                }
                let ghost before = moves@;
                generate_ep_move(board, left_from, c, moves, state_info, valid_destinations, mask);
                proof {
                    assert(left_from.0 + left_from_d == ep_sq.0);
                    assert forall|i: int| before.len() <= i < moves@.len() implies batch_stage(#[trigger] moves@[i], pd) == 9 by {
                        assert(ep_move_ok(*board, *state_info, c, left_from.0 as int, moves@[i], valid_destinations));
                    }
                    lemma_stage_append(before, moves@, start.len() as int, pd, 9);
                    let f = left_from.0 as int;
                    let q = |m: Move| ep_move_ok(*board, *state_info, c, f, m, valid_destinations);
                    assert(extends(moves@, before, q));
                    lemma_extends_chain(start, before, moves@, pb, q);
                    lemma_prefix_trans(mid, before, moves@);
                }
            }
            proof {
                lemma_prefix_trans(before_ep, mid, moves@);
                let rf = right_from.0 as int;
                let lf = left_from.0 as int;
                let e = ep_sq.0 as int;
                assert forall|m: Move|
                    bit(pawn_bb, m.from_sq().0 as u64) && ep_move_ok(*board, *state_info, c, m.from_sq().0 as int, m, valid_destinations)
                        implies #[trigger] moves@.contains(m) by {
                    let f = m.from_sq().0 as u64;
                    let fi = f as int;
                    crate::moves::lemma_move_squares(m);
                    lemma_pawn_rel_sides(c, fi, e);
                    lemma_masks(f);
                    lemma_bit_ops(pawn_bb, !FILE_H, f);
                    lemma_bit_ops(pawn_bb, !FILE_A, f);
                    lemma_bit_ops(FILE_H, FILE_H, f);
                    lemma_bit_ops(FILE_A, FILE_A, f);
                    if e == fwd(c, fi, 1) + 1 && fi % 8 != 7 {
                        assert(fi == rf);
                        assert(mid.contains(m));
                        lemma_contains_prefix(moves@, mid, m);
                    } else {
                        assert(fi == lf);
                    }
                }
            }
        },
        None => {},
    }
    proof {
        assert forall|m: Move| batch_move_ok(*board, *state_info, c, pawn_bb, m, valid_destinations) implies #[trigger] moves@.contains(m) by {
            let fi = m.from_sq().0 as int;
            if pawn_move_ok(cells, c, fi, m, valid_destinations) {
                assert(s7.contains(m));
                assert(s7 == before_ep);
                lemma_contains_prefix(moves@, before_ep, m);
            } else {
                assert(ep_move_ok(*board, *state_info, c, fi, m, valid_destinations));
            }
        }
    }
}

} // verus!
