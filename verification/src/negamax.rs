use vstd::prelude::*;
use crate::board::Board;
use crate::board_state::{count_eq, last_n, position_hash, state_after_move};
use crate::eval::PieceSquareTables;
use crate::generate::{checkers_bb, gen_move};
use crate::moves::Move;
use crate::perft::child_board;
use crate::quiescence::{q_plain, q_value};
use crate::state_info::StateInfo;
use crate::transposition::{TranspositionTable, MATE_SCORE};

verus! {

/// The hash of a position with the placement of `b` and the state `si`.
pub open spec fn node_hash(b: Board, si: StateInfo) -> u64 {
    position_hash(b.hash_value(), si)
}

/// The position repeats: its hash occurs at least twice among the hashes `hist` of the
/// positions since the last pawn move or capture.
pub open spec fn node_repeats(b: Board, si: StateInfo, hist: Seq<u64>) -> bool {
    count_eq(last_n(hist, si.half_move_clock as int), node_hash(b, si)) >= 2
}

/// The history after the move from the position: the position's hash appended.
pub open spec fn child_hist(b: Board, si: StateInfo, hist: Seq<u64>) -> Seq<u64> {
    hist.push(node_hash(b, si))
}

/// The negamax value of the position with history `hist`, searched `depth` moves deep
/// at distance `ply` from the root, for the side to move: 0 when the position repeats;
/// at depth 0 the value of its capture tree (six captures deep); without a legal move,
/// `-MATE_SCORE + ply` when in check and 0 otherwise; else the best over the legal
/// moves of the value after the move, negated.
pub open spec fn nm_value(b: Board, si: StateInfo, hist: Seq<u64>, depth: nat, ply: int, t: PieceSquareTables) -> int
    decreases depth, 0x10001int,
{
    if node_repeats(b, si, hist) {
        0
    } else if depth == 0 {
        q_value(b, si, 6, ply, t)
    } else {
        match nm_best(b, si, hist, depth, ply, t, 0x10000) {
            Some(v) => v,
            None => if checkers_bb(b, si.active_color) != 0 {
                -MATE_SCORE + ply
            } else {
                0
            },
        }
    }
}

/// The best, over the legal moves with packed value below `n`, of the value after the
/// move negated; `None` when there is no such move (see `nm_value`).
pub open spec fn nm_best(
    b: Board,
    si: StateInfo,
    hist: Seq<u64>,
    depth: nat,
    ply: int,
    t: PieceSquareTables,
    n: int,
) -> Option<int>
    decreases depth, n,
{
    if depth == 0 || n <= 0 {
        None
    } else {
        let m = Move((n - 1) as u16);
        let rest = nm_best(b, si, hist, depth, ply, t, n - 1);
        if gen_move(b, si, false, m) {
            let c = -nm_value(
                child_board(b, si, m),
                state_after_move(b.cells(), si, m),
                child_hist(b, si, hist),
                (depth - 1) as nat,
                ply + 1,
                t,
            );
            match rest {
                Some(r) => if c > r {
                    Some(c)
                } else {
                    Some(r)
                },
                None => Some(c),
            }
        } else {
            rest
        }
    }
}

/// The score of the move `m` in a search `depth` moves deep: the value after it,
/// negated (see `nm_value`).
pub open spec fn nm_child(b: Board, si: StateInfo, hist: Seq<u64>, depth: nat, ply: int, t: PieceSquareTables) -> spec_fn(Move) -> int {
    |m: Move|
        -nm_value(
            child_board(b, si, m),
            state_after_move(b.cells(), si, m),
            child_hist(b, si, hist),
            (depth - 1) as nat,
            ply + 1,
            t,
        )
}

/// No leaf of the search tree `depth` moves deep that is not a repetition has a
/// capture tree with a checkmate short of its leaves (see `q_plain`).
pub open spec fn nm_plain(b: Board, si: StateInfo, hist: Seq<u64>, depth: nat) -> bool
    decreases depth,
{
    node_repeats(b, si, hist) || if depth == 0 {
        q_plain(b, si, 6)
    } else {
        forall|m: Move|
            gen_move(b, si, false, m) ==> nm_plain(
                child_board(b, si, m),
                #[trigger] state_after_move(b.cells(), si, m),
                child_hist(b, si, hist),
                (depth - 1) as nat,
            )
    }
}

/// `h` is the hash of a position that a search `depth` moves deep looks up in the table
/// and stores to it: the position itself when it does not repeat and `depth` is at
/// least 1, and those of the searches after each legal move.
pub open spec fn in_tree(b: Board, si: StateInfo, hist: Seq<u64>, depth: nat, h: u64) -> bool
    decreases depth,
{
    &&& !node_repeats(b, si, hist)
    &&& depth >= 1
    &&& (h == node_hash(b, si) || exists|m: Move|
        gen_move(b, si, false, m) && in_tree(
            child_board(b, si, m),
            #[trigger] state_after_move(b.cells(), si, m),
            child_hist(b, si, hist),
            (depth - 1) as nat,
            h,
        ))
}

/// The searches after two different legal moves use no hash in common, at every
/// position of the search tree `depth` moves deep.
pub open spec fn tree_distinct(b: Board, si: StateInfo, hist: Seq<u64>, depth: nat) -> bool
    decreases depth,
{
    node_repeats(b, si, hist) || depth == 0 || {
        &&& forall|m: Move|
            gen_move(b, si, false, m) ==> tree_distinct(
                child_board(b, si, m),
                #[trigger] state_after_move(b.cells(), si, m),
                child_hist(b, si, hist),
                (depth - 1) as nat,
            )
        &&& kids_disjoint(b, si, hist, depth)
    }
}

/// The searches after two different legal moves, `depth - 1` moves deep, use no hash in
/// common.
pub open spec fn kids_disjoint(b: Board, si: StateInfo, hist: Seq<u64>, depth: nat) -> bool {
    forall|m1: Move, m2: Move, h: u64|
        #![trigger in_tree(child_board(b, si, m1), state_after_move(b.cells(), si, m1), child_hist(b, si, hist), (depth - 1) as nat, h), state_after_move(b.cells(), si, m2)]
        gen_move(b, si, false, m1) && gen_move(b, si, false, m2) && m1 != m2 && in_tree(
            child_board(b, si, m1),
            state_after_move(b.cells(), si, m1),
            child_hist(b, si, hist),
            (depth - 1) as nat,
            h,
        ) ==> !in_tree(
            child_board(b, si, m2),
            state_after_move(b.cells(), si, m2),
            child_hist(b, si, hist),
            (depth - 1) as nat,
            h,
        )
}

/// The table holds no entry for any hash that a search `depth` moves deep looks up.
pub open spec fn tt_clear(tt: TranspositionTable, b: Board, si: StateInfo, hist: Seq<u64>, depth: nat) -> bool {
    forall|h: u64| #[trigger] in_tree(b, si, hist, depth, h) ==> tt.lookup(h) is None
}

/// `h` is used by the search, `depth - 1` moves deep, after one of the moves of `ms`.
pub open spec fn in_kids(b: Board, si: StateInfo, hist: Seq<u64>, depth: nat, ms: Seq<Move>, h: u64) -> bool {
    exists|j: int|
        0 <= j < ms.len() && #[trigger] in_tree(
            child_board(b, si, ms[j]),
            state_after_move(b.cells(), si, ms[j]),
            child_hist(b, si, hist),
            (depth - 1) as nat,
            h,
        )
}

/// The search `depth - 1` moves deep after the legal move `m` meets the conditions of
/// the value law (see `search`): its leaves are plain, the searches below each position
/// use no hash in common, and the table holds no entry for the hashes it uses; and the
/// move's score lies strictly between `i32::MIN + 1` and `i32::MAX`.
pub open spec fn kid_ok(tt: TranspositionTable, b: Board, si: StateInfo, hist: Seq<u64>, depth: nat, m: Move, t: PieceSquareTables) -> bool {
    let cb = child_board(b, si, m);
    let cs = state_after_move(b.cells(), si, m);
    let ch = child_hist(b, si, hist);
    &&& nm_plain(cb, cs, ch, (depth - 1) as nat)
    &&& tree_distinct(cb, cs, ch, (depth - 1) as nat)
    &&& tt_clear(tt, cb, cs, ch, (depth - 1) as nat)
    &&& i32::MIN + 1 < nm_child(b, si, hist, depth, 0, t)(m) < i32::MAX
}

/// Storing an entry leaves every other hash without an entry if it had none.
pub proof fn lemma_insert_keeps_none(before: TranspositionTable, after: TranspositionTable, e: crate::transposition::TranspositionEntry, h: u64)
    requires
        before.wf(),
        after.table@ == before.table@.update(crate::transposition::slot(e.hash), Some(e)),
        h != e.hash,
        before.lookup(h) is None,
    ensures
        after.lookup(h) is None,
{
    crate::transposition::lemma_slot_bound(h);
    crate::transposition::lemma_slot_bound(e.hash);
}

/// The best of `nm_best`: every legal move scores at most it, and one scores it; it is
/// `None` exactly when no move is legal.
pub proof fn lemma_nm_best(b: Board, si: StateInfo, hist: Seq<u64>, depth: nat, ply: int, t: PieceSquareTables, n: int)
    requires
        depth >= 1,
        0 <= n <= 0x10000,
    ensures
        forall|v: u16|
            v < n && gen_move(b, si, false, Move(v)) ==> nm_best(b, si, hist, depth, ply, t, n) is Some
                && #[trigger] nm_child(b, si, hist, depth, ply, t)(Move(v)) <= nm_best(b, si, hist, depth, ply, t, n)->0,
        nm_best(b, si, hist, depth, ply, t, n) is Some ==> exists|v: u16|
            v < n && gen_move(b, si, false, Move(v)) && #[trigger] nm_child(b, si, hist, depth, ply, t)(Move(v))
                == nm_best(b, si, hist, depth, ply, t, n)->0,
    decreases n,
{
    if n > 0 {
        lemma_nm_best(b, si, hist, depth, ply, t, n - 1);
        let g = nm_child(b, si, hist, depth, ply, t);
        let x = ((n - 1) as u16);
        assert(Move(x) == Move((n - 1) as u16));
        let cur = nm_best(b, si, hist, depth, ply, t, n);
        let rest = nm_best(b, si, hist, depth, ply, t, n - 1);
        if cur is Some {
            if cur == rest {
                let v = choose|v: u16|
                    v < n - 1 && gen_move(b, si, false, Move(v)) && #[trigger] g(Move(v)) == rest->0;
                assert(v < n);
            } else {
                assert(g(Move(x)) == cur->0);
            }
        }
    }
}

/// Every legal move scores at most the value.
pub proof fn lemma_nm_value_upper(b: Board, si: StateInfo, hist: Seq<u64>, depth: nat, ply: int, t: PieceSquareTables, m: Move)
    requires
        depth >= 1,
        !node_repeats(b, si, hist),
        gen_move(b, si, false, m),
    ensures
        nm_child(b, si, hist, depth, ply, t)(m) <= nm_value(b, si, hist, depth, ply, t),
{
    lemma_nm_best(b, si, hist, depth, ply, t, 0x10000);
    assert(m == Move(m.0));
    assert(nm_child(b, si, hist, depth, ply, t)(Move(m.0)) <= nm_best(b, si, hist, depth, ply, t, 0x10000)->0);
}

/// With a legal move, some legal move scores the value.
pub proof fn lemma_nm_value_attained(b: Board, si: StateInfo, hist: Seq<u64>, depth: nat, ply: int, t: PieceSquareTables, m0: Move)
    requires
        depth >= 1,
        !node_repeats(b, si, hist),
        gen_move(b, si, false, m0),
    ensures
        exists|m: Move|
            gen_move(b, si, false, m) && #[trigger] nm_child(b, si, hist, depth, ply, t)(m) == nm_value(b, si, hist, depth, ply, t),
{
    lemma_nm_best(b, si, hist, depth, ply, t, 0x10000);
    let g = nm_child(b, si, hist, depth, ply, t);
    assert(m0 == Move(m0.0));
    assert(g(Move(m0.0)) <= nm_best(b, si, hist, depth, ply, t, 0x10000)->0);
    let v = choose|v: u16|
        v < 0x10000 && gen_move(b, si, false, Move(v)) && #[trigger] g(Move(v)) == nm_best(b, si, hist, depth, ply, t, 0x10000)->0;
    assert(g(Move(v)) == nm_value(b, si, hist, depth, ply, t));
}

/// Without a legal move the value is the mate score when in check, else 0.
pub proof fn lemma_nm_value_no_move(b: Board, si: StateInfo, hist: Seq<u64>, depth: nat, ply: int, t: PieceSquareTables)
    requires
        depth >= 1,
        !node_repeats(b, si, hist),
        forall|m: Move| !gen_move(b, si, false, m),
    ensures
        nm_value(b, si, hist, depth, ply, t) == if checkers_bb(b, si.active_color) != 0 {
            -MATE_SCORE + ply
        } else {
            0
        },
{
    lemma_nm_best(b, si, hist, depth, ply, t, 0x10000);
    let g = nm_child(b, si, hist, depth, ply, t);
    if nm_best(b, si, hist, depth, ply, t, 0x10000) is Some {
        let v = choose|v: u16|
            v < 0x10000 && gen_move(b, si, false, Move(v)) && #[trigger] g(Move(v)) == nm_best(b, si, hist, depth, ply, t, 0x10000)->0;
        assert(gen_move(b, si, false, Move(v)));
    }
}

} // verus!
