use vstd::prelude::*;
use crate::board::Board;
use crate::board_state::state_after_move;
use crate::eval::{eval_spec, PieceSquareTables};
use crate::generate::{checkers_bb, gen_move};
use crate::moves::{Move, MoveFlag};
use crate::movegen::{ep_discovery_ok, fwd};
use crate::perft::child_board;
use crate::state_info::StateInfo;
use crate::transposition::MATE_SCORE;

verus! {

/// A capture that the capture search plays: one that capture-only generation gives,
/// but an en passant capture that uncovers the king's rank.
pub open spec fn q_move(b: Board, si: StateInfo, m: Move) -> bool {
    &&& gen_move(b, si, true, m)
    &&& (m.flag() == MoveFlag::EnPassant ==> ep_discovery_ok(
        b,
        si.active_color,
        m.from_sq().0 as int,
        fwd(si.active_color, m.to_sq().0 as int, -1),
    ))
}

/// Whether capture-only generation gives any move.
pub open spec fn has_capture(b: Board, si: StateInfo) -> bool {
    exists|m: Move| gen_move(b, si, true, m)
}

/// The value of the capture tree of the position to `depth` captures, for the side to
/// move (negamax): at depth 0 the evaluation; without captures, the evaluation, or
/// `-MATE_SCORE + ply` when in check; else the best of the evaluation (stand-pat) and
/// of each capture's value, negated, one ply further.
pub open spec fn q_value(b: Board, si: StateInfo, depth: nat, ply: int, t: PieceSquareTables) -> int
    decreases depth, 0x10001int,
{
    if depth == 0 {
        eval_spec(b, si.active_color, t)
    } else if !has_capture(b, si) {
        if checkers_bb(b, si.active_color) != 0 {
            -MATE_SCORE + ply
        } else {
            eval_spec(b, si.active_color, t)
        }
    } else {
        q_best(b, si, depth, ply, t, 0x10000)
    }
}

/// The best of the evaluation and of the values of the captures with packed value below
/// `n` (see `q_value`).
pub open spec fn q_best(b: Board, si: StateInfo, depth: nat, ply: int, t: PieceSquareTables, n: int) -> int
    decreases depth, n,
{
    if depth == 0 || n <= 0 {
        eval_spec(b, si.active_color, t)
    } else {
        let m = Move((n - 1) as u16);
        let rest = q_best(b, si, depth, ply, t, n - 1);
        if q_move(b, si, m) {
            let c = -q_value(child_board(b, si, m), state_after_move(b.cells(), si, m), (depth - 1) as nat, ply + 1, t);
            if c > rest {
                c
            } else {
                rest
            }
        } else {
            rest
        }
    }
}

/// The capture tree to `depth` holds no position, short of its leaves, that is in check
/// without a generated move: in check, capture-only generation gives every legal move,
/// so such a position is checkmate.
pub open spec fn q_plain(b: Board, si: StateInfo, depth: nat) -> bool
    decreases depth,
{
    depth == 0 || ((has_capture(b, si) || checkers_bb(b, si.active_color) == 0) && forall|m: Move|
        q_move(b, si, m) ==> q_plain(
            child_board(b, si, m),
            #[trigger] state_after_move(b.cells(), si, m),
            (depth - 1) as nat,
        ))
}

/// A fail-hard alpha-beta result `s` for the value `v` and the window `alpha`..`beta`:
/// at most `alpha` means the value is at most `s`, at least `beta` means it is at least
/// `s`, and strictly inside the window it is the value.
pub open spec fn window_ok(s: int, v: int, alpha: int, beta: int) -> bool {
    &&& (s <= alpha ==> v <= s)
    &&& (s >= beta ==> v >= s)
    &&& (alpha < s < beta ==> v == s)
}

/// What a capture contributes (see `q_best`).
pub open spec fn q_child(b: Board, si: StateInfo, depth: nat, ply: int, t: PieceSquareTables) -> spec_fn(Move) -> int {
    |m: Move| -q_value(child_board(b, si, m), state_after_move(b.cells(), si, m), (depth - 1) as nat, ply + 1, t)
}

/// The best of `base` and of `g` over the moves `p` admits in a list, taken in order.
pub open spec fn seq_best(s: Seq<Move>, base: int, p: spec_fn(Move) -> bool, g: spec_fn(Move) -> int) -> int
    decreases s.len(),
{
    if s.len() == 0 {
        base
    } else {
        let rest = seq_best(s.drop_last(), base, p, g);
        if p(s.last()) && g(s.last()) > rest {
            g(s.last())
        } else {
            rest
        }
    }
}

/// `seq_best` is at least `base` and each admitted value, and is one of them.
pub proof fn lemma_seq_best(s: Seq<Move>, base: int, p: spec_fn(Move) -> bool, g: spec_fn(Move) -> int)
    ensures
        seq_best(s, base, p, g) >= base,
        forall|i: int| 0 <= i < s.len() && p(s[i]) ==> g(#[trigger] s[i]) <= seq_best(s, base, p, g),
        seq_best(s, base, p, g) == base || exists|i: int|
            0 <= i < s.len() && p(s[i]) && g(#[trigger] s[i]) == seq_best(s, base, p, g),
    decreases s.len(),
{
    if s.len() > 0 {
        let d = s.drop_last();
        lemma_seq_best(d, base, p, g);
        assert forall|i: int| 0 <= i < s.len() && p(s[i]) implies g(#[trigger] s[i]) <= seq_best(s, base, p, g) by {
            if i < s.len() - 1 {
                assert(s[i] == d[i]);
            }
        }
        if seq_best(s, base, p, g) != base {
            if seq_best(s, base, p, g) == seq_best(d, base, p, g) {
                let i = choose|i: int| 0 <= i < d.len() && p(d[i]) && g(#[trigger] d[i]) == seq_best(d, base, p, g);
                assert(s[i] == d[i]);
            } else {
                assert(s[s.len() - 1] == s.last());
            }
        }
    }
}

/// `q_best` is at least the evaluation and each admitted capture's value below `n`, and
/// is one of them.
pub proof fn lemma_q_best(b: Board, si: StateInfo, depth: nat, ply: int, t: PieceSquareTables, n: int)
    requires
        depth >= 1,
        0 <= n <= 0x10000,
    ensures
        q_best(b, si, depth, ply, t, n) >= eval_spec(b, si.active_color, t),
        forall|v: u16| v < n && q_move(b, si, Move(v)) ==> #[trigger] q_child(b, si, depth, ply, t)(Move(v))
            <= q_best(b, si, depth, ply, t, n),
        q_best(b, si, depth, ply, t, n) == eval_spec(b, si.active_color, t) || exists|v: u16|
            v < n && q_move(b, si, Move(v)) && #[trigger] q_child(b, si, depth, ply, t)(Move(v)) == q_best(
                b,
                si,
                depth,
                ply,
                t,
                n,
            ),
    decreases n,
{
    if n > 0 {
        lemma_q_best(b, si, depth, ply, t, n - 1);
        let g = q_child(b, si, depth, ply, t);
        let x = ((n - 1) as u16);
        assert(Move(x) == Move((n - 1) as u16));
        if q_best(b, si, depth, ply, t, n) != eval_spec(b, si.active_color, t) {
            if q_best(b, si, depth, ply, t, n) == q_best(b, si, depth, ply, t, n - 1) {
                let v = choose|v: u16|
                    v < n - 1 && q_move(b, si, Move(v)) && #[trigger] g(Move(v)) == q_best(b, si, depth, ply, t, n - 1);
                assert(v < n);
            } else {
                assert(g(Move(x)) == q_best(b, si, depth, ply, t, n));
            }
        }
    }
}

/// Over a list that holds every admitted capture, the in-order best is `q_best` over
/// all moves.
pub proof fn lemma_seq_best_all(b: Board, si: StateInfo, depth: nat, ply: int, t: PieceSquareTables, s: Seq<Move>)
    requires
        depth >= 1,
        forall|m: Move| q_move(b, si, m) ==> s.contains(m),
    ensures
        seq_best(s, eval_spec(b, si.active_color, t), |m: Move| q_move(b, si, m), q_child(b, si, depth, ply, t))
            == q_best(b, si, depth, ply, t, 0x10000),
{
    let p = |m: Move| q_move(b, si, m);
    let g = q_child(b, si, depth, ply, t);
    let base = eval_spec(b, si.active_color, t);
    let x = seq_best(s, base, p, g);
    let y = q_best(b, si, depth, ply, t, 0x10000);
    lemma_seq_best(s, base, p, g);
    lemma_q_best(b, si, depth, ply, t, 0x10000);
    if x != base {
        let i = choose|i: int| 0 <= i < s.len() && p(s[i]) && g(#[trigger] s[i]) == x;
        let v = s[i].0;
        assert(s[i] == Move(v));
        assert(g(Move(v)) <= y);
    }
    if y != base {
        let v = choose|v: u16| v < 0x10000 && q_move(b, si, Move(v)) && #[trigger] g(Move(v)) == y;
        assert(s.contains(Move(v)));
        let i = choose|i: int| 0 <= i < s.len() && s[i] == Move(v);
        assert(p(s[i]));
    }
}

} // verus!
