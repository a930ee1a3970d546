use vstd::prelude::*;
use std::sync::atomic::AtomicBool;
use std::sync::atomic::Ordering;
use std::time::Duration;
use std::time::Instant;
use crate::board_state::BoardState;
use crate::eval::{eval, PieceSquareTables};
use crate::generate::{gen_move, generate_moves, generated, is_check};
use crate::legality::{lemma_gen_shape, lemma_legal_ready};
use crate::moves::{Move, MoveFlag};
use crate::order::{move_readable, order_moves};
use crate::perft::{make_generated, playable, restored, searchable, take_back};
use crate::transposition::{score_from_tt, Bound, TranspositionEntry, TranspositionTable, MATE_SCORE};
use crate::generate::checkers_bb;
use crate::board_state::{count_eq, last_n, position_hash, state_after_move};
use crate::eval::eval_spec;
use crate::perft::child_board;
use crate::negamax::{
    child_hist, in_kids, in_tree, kid_ok, kids_disjoint, lemma_insert_keeps_none, lemma_nm_value_attained,
    lemma_nm_value_no_move, lemma_nm_value_upper, nm_child, nm_plain, nm_value, tree_distinct, tt_clear,
};
use crate::quiescence::{
    has_capture, lemma_q_best, lemma_seq_best_all, q_best, q_child, q_move, q_plain, q_value, seq_best, window_ok,
};

verus! {

#[verifier::external_type_specification]
#[verifier::external_body]
pub struct ExInstant(Instant);

/// `Instant::now`: the current time, of which nothing is claimed.
#[verifier::external_body]
fn clock_now() -> Instant {
    Instant::now()
}

/// `Instant::elapsed`: the time since `start`, of which nothing is claimed.
#[verifier::external_body]
fn elapsed_since(start: &Instant) -> Duration {
    start.elapsed()
}

/// `Duration::as_millis`: whole milliseconds, of which nothing is claimed here.
#[verifier::external_body]
fn duration_millis(d: Duration) -> u128 {
    d.as_millis()
}

/// Milliseconds since `start`, cut to 64 bits.
pub fn elapsed_ms(start: &Instant) -> u64 {
    duration_millis(elapsed_since(start)) as u64
}

/// Whether `elapsed` milliseconds spend a budget of `budget` milliseconds, keeping 20
/// ms in hand.
pub open spec fn budget_reached_spec(elapsed: u64, budget: u64) -> bool {
    elapsed + 20 >= budget
}

/// Whether `elapsed` milliseconds spend a budget of `budget` milliseconds, keeping 20
/// ms in hand.
pub fn budget_reached(elapsed: u64, budget: u64) -> (r: bool)
    ensures
        r == (elapsed + 20 >= budget),
        r == budget_reached_spec(elapsed, budget),
{
    elapsed.saturating_add(20) >= budget
}

/// Whether the time budget is spent, keeping 20 ms in hand (see `budget_reached`; the
/// clock decides): some count of elapsed milliseconds reaches the budget, so a budget of
/// 20 ms or less is always spent.
pub fn budget_spent(start: &Instant, budget: u64) -> (r: bool)
    ensures
        exists|elapsed: u64| r == budget_reached_spec(elapsed, budget),
        budget <= 20 ==> r,
{
    let e = elapsed_ms(start);
    let r = budget_reached(e, budget);
    proof {
        assert(r == budget_reached_spec(e, budget));
    }
    r
}

/// What a search carries from node to node: the node count, the stop flag and time
/// budget, the killer moves by distance from the root, and the evaluation tables.
pub struct SearchCtx<'a> {
    pub nodes: u64,
    pub stop_flag: &'a AtomicBool,
    pub start: Instant,
    pub budget_ms: Option<u64>,
    pub killers: Vec<[Option<Move>; 2]>,
    pub tables: &'a PieceSquareTables,
}

impl<'a> SearchCtx<'a> {
    /// A killer slot for every distance from the root and bounded tables.
    pub open spec fn wf(&self) -> bool {
        &&& self.killers@.len() == 256
        &&& self.tables.bounded()
    }

    /// Counts a node; every 2048 nodes, reports whether the search must stop: the stop
    /// flag is set, or the time budget is spent (the flag is then set).
    pub fn should_stop(&mut self) -> (r: bool)
        ensures
            final(self).nodes == vstd::wrapping::u64_specs::wrapping_add(old(self).nodes, 1),
            final(self).killers@ == old(self).killers@,
            final(self).tables == old(self).tables,
            final(self).budget_ms == old(self).budget_ms,
            final(self).nodes % 2048 != 0 ==> !r,
            final(self).nodes % 2048 == 0 && (old(self).budget_ms matches Some(b) && b <= 20) ==> r,
    {
        self.nodes = self.nodes.wrapping_add(1);
        if self.nodes % 2048 != 0 {
            return false;
        }
        if self.stop_flag.load(Ordering::Relaxed) {
            return true;
        }
        match self.budget_ms {
            Some(b) => {
                if budget_spent(&self.start, b) {
                    self.stop_flag.store(true, Ordering::Relaxed);
                    return true;
                }
            },
            None => {},
        }
        false
    }
}

/// Makes `mv` the newest killer move, unless it already is.
pub fn store_killers(killers: &mut [Option<Move>; 2], mv: Move)
    ensures
        old(killers)[0] == Some(mv) ==> final(killers)@ == old(killers)@,
        old(killers)[0] != Some(mv) ==> final(killers)[0] == Some(mv) && final(killers)[1] == old(killers)[0],
{
    if killers[0] != Some(mv) {
        let first = killers[0];
        killers[1] = first;
        killers[0] = Some(mv);
    }
}

/// Ordering keeps the moves of a list, so a reordered list of generated moves is one too.
proof fn lemma_reordered(b: crate::board::Board, si: crate::state_info::StateInfo, oc: bool, orig: Seq<Move>, moves: Seq<Move>)
    requires
        generated(b, si, oc, orig),
        moves.to_multiset() == orig.to_multiset(),
    ensures
        generated(b, si, oc, moves),
{
    broadcast use vstd::seq_lib::group_to_multiset_ensures;
    assert forall|i: int| 0 <= i < moves.len() implies gen_move(b, si, oc, #[trigger] moves[i]) by {
        assert(moves.contains(moves[i]));
        assert(moves.to_multiset().count(moves[i]) > 0);
        assert(orig.contains(moves[i]));
        let j = choose|j: int| 0 <= j < orig.len() && orig[j] == moves[i];
        assert(gen_move(b, si, oc, orig[j]));
    }
}

/// Generated moves in a legal position can be scored for ordering.
proof fn lemma_generated_readable(b: crate::board::Board, si: crate::state_info::StateInfo, oc: bool, moves: Seq<Move>)
    requires
        b.wf(),
        crate::position::legal_position(b.cells(), si),
        generated(b, si, oc, moves),
    ensures
        forall|i: int| 0 <= i < moves.len() ==> move_readable(b.cells(), #[trigger] moves[i]),
{
    assert forall|i: int| 0 <= i < moves.len() implies move_readable(b.cells(), #[trigger] moves[i]) by {
        lemma_gen_shape(b, si, oc, moves[i]);
        crate::moves::lemma_move_squares(moves[i]);
        b.lemma_cells_len();
    }
}

/// The score of the capture sequences from the position, at most `depth` captures deep,
/// for the side to move, within the window `alpha`..`beta` (stand-pat: the side may stop
/// capturing and take the evaluation). `None` when the search must stop. The position is
/// taken back to where it was. An en passant capture that
/// capture-only generation lets through while it uncovers the king's rank is skipped.
/// With a non-empty window, over a capture tree without a checkmate short of its leaves
/// (`q_plain`), the score is a fail-hard alpha-beta result for the tree's value
/// `q_value` (see `window_ok`).
pub fn quiescence_search(board_state: &mut BoardState, depth: u8, alpha: i32, beta: i32, ply: u8, ctx: &mut SearchCtx) -> (r: Option<i32>)
    requires
        searchable(*old(board_state), depth as int),
        1 <= ply,
        ply + depth <= 255,
        alpha > i32::MIN,
        beta > i32::MIN,
        old(ctx).wf(),
    ensures
        restored(*old(board_state), *final(board_state)),
        final(ctx).wf(),
        final(ctx).tables == old(ctx).tables,
        r matches Some(s) ==> s > i32::MIN,
        r is None ==> final(ctx).nodes % 2048 == 0,
        depth == 0 ==> (r matches Some(v) ==> v == eval_spec(
            old(board_state).board,
            old(board_state).state_info.active_color,
            *old(ctx).tables,
        )),
        depth > 0 && eval_spec(old(board_state).board, old(board_state).state_info.active_color, *old(ctx).tables)
            >= beta ==> (r matches Some(v) ==> v == beta),
        depth > 0 && alpha <= beta && -MATE_SCORE + ply <= beta ==> (r matches Some(v) ==> v <= beta),
        !stop_check_due(old(ctx).nodes) && (depth == 0 || eval_spec(
            old(board_state).board,
            old(board_state).state_info.active_color,
            *old(ctx).tables,
        ) >= beta || !has_capture(old(board_state).board, old(board_state).state_info)) ==> r is Some,
        alpha < beta && q_plain(old(board_state).board, old(board_state).state_info, depth as nat) ==> (r matches Some(
            s,
        ) ==> window_ok(
            s as int,
            q_value(old(board_state).board, old(board_state).state_info, depth as nat, ply as int, *old(ctx).tables),
            alpha as int,
            beta as int,
        )),
    decreases depth, 1int,
{
    let ghost alpha0 = alpha;
    let ghost t = *ctx.tables;
    let ghost b0 = board_state.board;
    let ghost si0 = board_state.state_info;
    let ghost plain = alpha0 < beta && q_plain(b0, si0, depth as nat);
    if ctx.should_stop() {
        return None;
    }
    let stand_pat = eval(board_state, ctx.tables);
    if depth == 0 {
        return Some(stand_pat);
    }
    let mut best = alpha;
    if stand_pat >= beta {
        proof {
            if has_capture(b0, si0) {
                lemma_q_best(b0, si0, depth as nat, ply as int, t, 0x10000);
            }
        }
        return Some(beta);
    }
    if stand_pat > best {
        best = stand_pat;
    }
    proof {
        lemma_legal_ready(board_state.board, board_state.state_info);
    }
    let mut moves = generate_moves(board_state, true);
    let ghost orig = moves@;
    proof {
        lemma_generated_readable(board_state.board, board_state.state_info, true, moves@);
    }
    order_moves(board_state, &mut moves, None, [None, None]);
    proof {
        lemma_reordered(board_state.board, board_state.state_info, true, orig, moves@);
        broadcast use vstd::seq_lib::group_to_multiset_ensures;
        assert forall|m: Move| gen_move(b0, si0, true, m) implies moves@.contains(m) by {
            assert(orig.contains(m));
            assert(orig.to_multiset().count(m) > 0);
        }
    }
    if moves.len() == 0 {
        proof {
            if has_capture(b0, si0) {
                let m = choose|m: Move| gen_move(b0, si0, true, m);
                assert(moves@.contains(m));
            }
        }
        if is_check(board_state) {
            return Some(-MATE_SCORE + ply as i32);
        } else {
            return Some(stand_pat);
        }
    }
    let ghost root = *board_state;
    let ghost p = |m: Move| q_move(b0, si0, m);
    let ghost g = q_child(b0, si0, depth as nat, ply as int, t);
    proof {
        assert(gen_move(b0, si0, true, moves@[0]));
        assert(has_capture(b0, si0));
        assert(moves@.take(0) =~= Seq::<Move>::empty());
    }
    let mut i: usize = 0;
    while i < moves.len()
        invariant
            root == *old(board_state),
            b0 == root.board,
            si0 == root.state_info,
            searchable(root, depth as int),
            1 <= depth,
            1 <= ply,
            ply + depth <= 255,
            alpha == alpha0,
            best > i32::MIN,
            beta > i32::MIN,
            ctx.wf(),
            t == *ctx.tables,
            t == *old(ctx).tables,
            restored(root, *board_state),
            generated(root.board, root.state_info, true, moves@),
            i <= moves.len(),
            p == (|m: Move| q_move(b0, si0, m)),
            g == q_child(b0, si0, depth as nat, ply as int, t),
            stand_pat == eval_spec(b0, si0.active_color, t),
            stand_pat < beta,
            has_capture(b0, si0),
            plain == (alpha0 < beta && q_plain(b0, si0, depth as nat)),
            plain ==> best < beta,
            alpha0 <= beta ==> best <= beta,
            plain ==> best == (if alpha0 > seq_best(moves@.take(i as int), stand_pat as int, p, g) {
                alpha0 as int
            } else {
                seq_best(moves@.take(i as int), stand_pat as int, p, g)
            }),
        decreases moves.len() - i,
    {
        let mv = moves[i];
        proof {
            assert(gen_move(root.board, root.state_info, true, mv));
            crate::legality::lemma_gen_facts(root.board, root.state_info, true, mv);
            assert(crate::movegen::ep_square_placed(root.state_info, root.state_info.active_color)) by {
                lemma_legal_ready(root.board, root.state_info);
            }
            assert(moves@.take(i + 1).drop_last() =~= moves@.take(i as int));
            assert(moves@.take(i + 1).last() == mv);
        }
        let ghost before = seq_best(moves@.take(i as int), stand_pat as int, p, g);
        let mut safe = true;
        if mv.flags() == MoveFlag::EnPassant {
            let c = board_state.state_info.active_color;
            let to = mv.target();
            let csq = match c {
                crate::piece::Color::White => to.offset(-8),
                crate::piece::Color::Black => to.offset(8),
            };
            proof {
                lemma_legal_ready(board_state.board, board_state.state_info);
            }
            safe = crate::movegen::ep_rank_safe(&board_state.board, c, mv.source(), csq);
        }
        proof {
            assert(safe == q_move(b0, si0, mv));
        }
        if safe {
            proof {
                if plain {
                    assert(q_plain(
                        child_board(b0, si0, mv),
                        state_after_move(b0.cells(), si0, mv),
                        (depth - 1) as nat,
                    ));
                }
            }
            let evaluation = quiescence_child(board_state, mv, depth, best, beta, ply, ctx, Ghost(root));
            match evaluation {
                None => {
                    return None;
                },
                Some(e) => {
                    if e >= beta {
                        proof {
                            if plain {
                                lemma_q_best(b0, si0, depth as nat, ply as int, t, 0x10000);
                                assert(mv == Move(mv.0));
                                assert(g(Move(mv.0)) <= q_best(b0, si0, depth as nat, ply as int, t, 0x10000));
                            }
                        }
                        return Some(beta);
                    }
                    if e > best {
                        best = e;
                    }
                },
            }
        }
        i = i + 1;
    }
    proof {
        if plain {
            assert(moves@.take(moves@.len() as int) =~= moves@);
            lemma_seq_best_all(b0, si0, depth as nat, ply as int, t, moves@);
        }
    }
    Some(best)
}

/// Makes `mv`, searches the captures after it with the window turned round, takes the
/// move back and gives the score from this side's view.
fn quiescence_child(
    board_state: &mut BoardState,
    mv: Move,
    depth: u8,
    alpha: i32,
    beta: i32,
    ply: u8,
    ctx: &mut SearchCtx,
    Ghost(root): Ghost<BoardState>,
) -> (r: Option<i32>)
    requires
        searchable(root, depth as int),
        1 <= depth,
        1 <= ply,
        ply + depth <= 255,
        alpha > i32::MIN,
        beta > i32::MIN,
        old(ctx).wf(),
        restored(root, *old(board_state)),
        playable(root, true, mv),
    ensures
        restored(root, *final(board_state)),
        final(ctx).wf(),
        final(ctx).tables == old(ctx).tables,
        r matches Some(s) ==> s > i32::MIN,
        r is None ==> final(ctx).nodes % 2048 == 0,
        alpha < beta && q_plain(
            child_board(root.board, root.state_info, mv),
            state_after_move(root.board.cells(), root.state_info, mv),
            (depth - 1) as nat,
        ) ==> (r matches Some(e) ==> window_ok(
            e as int,
            -q_value(
                child_board(root.board, root.state_info, mv),
                state_after_move(root.board.cells(), root.state_info, mv),
                (depth - 1) as nat,
                ply + 1,
                *old(ctx).tables,
            ),
            alpha as int,
            beta as int,
        )),
    decreases depth, 0int,
{
    let ghost s0 = *board_state;
    let undo = make_generated(board_state, mv, Ghost(root), Ghost(depth as int), Ghost(true));
    let ghost s1 = *board_state;
    proof {
        let c = child_board(root.board, root.state_info, mv);
        assert(c.wf() && c.cells() == s1.board.cells());
        crate::board::Board::lemma_board_ext(s1.board, c);
    }
    let r = quiescence_search(board_state, depth - 1, -beta, -alpha, ply + 1, ctx);
    take_back(board_state, &undo, Ghost(s0), Ghost(s1), Ghost(mv));
    match r {
        Some(e) => Some(-e),
        None => None,
    }
}

/// The position repeats: its hash occurs at least twice among the positions since the
/// last pawn move or capture (see `is_repetition`).
pub open spec fn repeats(bs: BoardState) -> bool {
    count_eq(last_n(bs.history(), bs.state_info.half_move_clock as int), bs.hash_value()) >= 2
}

/// The table holds, for `hash`, an entry searched at least `depth` deep that settles
/// the window `alpha`..`beta` at distance `ply`: an exact score, a lower bound at or
/// above `beta`, or an upper bound at or below `alpha`.
pub open spec fn tt_settles(tt: TranspositionTable, hash: u64, depth: u8, alpha: i32, beta: i32, ply: u8) -> bool {
    &&& tt.lookup(hash) is Some
    &&& tt.lookup(hash)->Some_0.depth >= depth
    &&& match tt.lookup(hash)->Some_0.node_type {
        Bound::Exact => true,
        Bound::Lower => score_from_tt(tt.lookup(hash)->Some_0.score as int, ply as int) >= beta,
        Bound::Upper => score_from_tt(tt.lookup(hash)->Some_0.score as int, ply as int) <= alpha,
    }
}

/// The next node counted brings the count to a multiple of 2048, the only counts at
/// which the stop flag and the clock are looked at (see `should_stop`).
pub open spec fn stop_check_due(nodes: u64) -> bool {
    vstd::wrapping::u64_specs::wrapping_add(nodes, 1) % 2048 == 0
}

/// A fail-hard result for a value strictly inside the range of scores, with the window
/// open above: above the window's floor it is the value, else the value is at most the
/// floor.
proof fn lemma_open_window(e: int, v: int, b: int)
    requires
        window_ok(e, v, b, i32::MAX as int),
        i32::MIN + 1 < v < i32::MAX,
        b < i32::MAX,
    ensures
        e > b ==> v == e,
        e <= b ==> v <= b,
{
}

/// A fail-hard result turned round with its window stays one.
proof fn lemma_window_neg(s: int, v: int, alpha: int, beta: int)
    requires
        window_ok(s, v, -beta, -alpha),
    ensures
        window_ok(-s, -v, alpha, beta),
{
}

/// Alpha-beta (negamax) search of the position to `depth` moves, then captures (six at
/// most); the score is from the side to move's view, within the window `alpha`..`beta`:
/// `Exact`, or `Lower` (at least `beta`, a cutoff) or `Upper` (at most `alpha`). A
/// repeated position scores 0, a mate found `ply` moves from the root
/// `-MATE_SCORE + ply`, a stalemate 0. Results are stored in the table and killer moves
/// recorded. `None` when the search must stop. The position is taken back to where it
/// was. Without a table entry that settles the window, a cutoff returns `beta`
/// (`Lower`), a search where no move beats `alpha` returns `alpha` (`Upper`), and an
/// `Exact` score lies strictly inside the window. When the table holds no entry for the
/// positions the search looks up, the searches after different moves use no hash in
/// common and no leaf hides a checkmate in its capture tree, the score is a fail-hard
/// result for the negamax value `nm_value` of the position with its history.
pub fn search(
    board_state: &mut BoardState,
    depth: u8,
    alpha: i32,
    beta: i32,
    ply: u8,
    ctx: &mut SearchCtx,
    tt: &mut TranspositionTable,
) -> (r: Option<(i32, Bound)>)
    requires
        searchable(*old(board_state), depth + 6),
        1 <= ply,
        ply + depth + 6 <= 255,
        alpha > i32::MIN,
        beta > i32::MIN,
        old(ctx).wf(),
        old(tt).wf(),
    ensures
        restored(*old(board_state), *final(board_state)),
        final(ctx).wf(),
        final(tt).wf(),
        r matches Some((s, _)) ==> s > i32::MIN,
        final(ctx).tables == old(ctx).tables,
        r is None ==> final(ctx).nodes % 2048 == 0,
        r matches Some((s, b)) ==> (b == Bound::Lower ==> s >= beta) && (b == Bound::Upper ==> s <= alpha),
        repeats(*old(board_state)) ==> r == Some((0i32, Bound::Exact)),
        !repeats(*old(board_state)) && depth == 0 && alpha < beta && q_plain(
            old(board_state).board,
            old(board_state).state_info,
            6,
        ) ==> (r matches Some((s, b)) ==> b == Bound::Exact && window_ok(
            s as int,
            q_value(old(board_state).board, old(board_state).state_info, 6, ply as int, *old(ctx).tables),
            alpha as int,
            beta as int,
        )),
        !repeats(*old(board_state)) && depth >= 1 && tt_settles(*old(tt), old(board_state).hash_value(), depth, alpha, beta, ply)
            ==> (r matches Some((s, b)) ==> s == score_from_tt(
            old(tt).lookup(old(board_state).hash_value())->Some_0.score as int,
            ply as int,
        ) && b == old(tt).lookup(old(board_state).hash_value())->Some_0.node_type),
        !repeats(*old(board_state)) && depth >= 1 && !tt_settles(
            *old(tt),
            old(board_state).hash_value(),
            depth,
            alpha,
            beta,
            ply,
        ) && (forall|m: Move| !gen_move(old(board_state).board, old(board_state).state_info, false, m)) ==> (r matches Some(
            (s, b),
        ) ==> b == Bound::Exact && s == (if checkers_bb(old(board_state).board, old(board_state).state_info.active_color)
            != 0 {
            -MATE_SCORE + ply
        } else {
            0
        })),
        !repeats(*old(board_state)) && depth >= 1 && !stop_check_due(old(ctx).nodes) && (tt_settles(
            *old(tt),
            old(board_state).hash_value(),
            depth,
            alpha,
            beta,
            ply,
        ) || forall|m: Move| !gen_move(old(board_state).board, old(board_state).state_info, false, m)) ==> r is Some,
        !repeats(*old(board_state)) && depth >= 1 && !tt_settles(
            *old(tt),
            old(board_state).hash_value(),
            depth,
            alpha,
            beta,
            ply,
        ) && (exists|m: Move| gen_move(old(board_state).board, old(board_state).state_info, false, m)) ==> (r matches Some(
            (s, b),
        ) ==> (b == Bound::Lower ==> s == beta) && (b == Bound::Upper ==> s == alpha) && (b == Bound::Exact ==> alpha < s
            < beta)),
        forall|h: u64|
            !in_tree(old(board_state).board, old(board_state).state_info, old(board_state).history(), depth as nat, h)
                && old(tt).lookup(h) is None ==> #[trigger] final(tt).lookup(h) is None,
        alpha < beta && nm_plain(old(board_state).board, old(board_state).state_info, old(board_state).history(), depth as nat)
            && tree_distinct(old(board_state).board, old(board_state).state_info, old(board_state).history(), depth as nat)
            && tt_clear(*old(tt), old(board_state).board, old(board_state).state_info, old(board_state).history(), depth as nat)
            ==> (r matches Some((s, _)) ==> window_ok(
            s as int,
            nm_value(
                old(board_state).board,
                old(board_state).state_info,
                old(board_state).history(),
                depth as nat,
                ply as int,
                *old(ctx).tables,
            ),
            alpha as int,
            beta as int,
        )),
    decreases depth, 1int,
{
    let ghost t = *ctx.tables;
    if board_state.is_repetition() {
        return Some((0, Bound::Exact));
    }
    if depth == 0 {
        return match quiescence_search(board_state, 6, alpha, beta, ply, ctx) {
            Some(e) => Some((e, Bound::Exact)),
            None => None,
        };
    }
    if ctx.should_stop() {
        return None;
    }
    let ghost lawg = alpha < beta && nm_plain(board_state.board, board_state.state_info, board_state.history(), depth as nat)
        && tree_distinct(board_state.board, board_state.state_info, board_state.history(), depth as nat)
        && tt_clear(*tt, board_state.board, board_state.state_info, board_state.history(), depth as nat);
    proof {
        if lawg {
            assert(in_tree(board_state.board, board_state.state_info, board_state.history(), depth as nat, board_state.hash_value()));
        }
    }
    let mut tt_move: Option<Move> = None;
    match tt.get_entry(board_state.hash) {
        Some(entry) => {
            tt_move = entry.best_move;
            if entry.depth >= depth && entry.is_valid(alpha, beta, ply) {
                return Some((entry.get_score(ply), entry.node_type));
            }
        },
        None => {},
    }
    let mut a = alpha;
    proof {
        lemma_legal_ready(board_state.board, board_state.state_info);
    }
    let mut moves = generate_moves(board_state, false);
    let ghost orig = moves@;
    proof {
        lemma_generated_readable(board_state.board, board_state.state_info, false, moves@);
    }
    let killers = ctx.killers[ply as usize];
    order_moves(board_state, &mut moves, tt_move, killers);
    proof {
        lemma_reordered(board_state.board, board_state.state_info, false, orig, moves@);
        broadcast use vstd::seq_lib::group_to_multiset_ensures;
        assert forall|m: Move| gen_move(board_state.board, board_state.state_info, false, m) implies moves@.contains(m) by {
            assert(orig.contains(m));
            assert(orig.to_multiset().count(m) > 0);
        }
    }
    proof {
        if moves.len() > 0 {
            assert(gen_move(board_state.board, board_state.state_info, false, moves@[0]));
        }
    }
    if moves.len() == 0 {
        proof {
            assert forall|m: Move| !gen_move(board_state.board, board_state.state_info, false, m) by {
                if gen_move(board_state.board, board_state.state_info, false, m) {
                    assert(moves@.contains(m));
                }
            }
        }
        proof {
            lemma_nm_value_no_move(board_state.board, board_state.state_info, board_state.history(), depth as nat, ply as int, t);
        }
        if is_check(board_state) {
            return Some((-MATE_SCORE + ply as i32, Bound::Exact));
        } else {
            return Some((0, Bound::Exact));
        }
    }
    let ghost root = *board_state;
    let ghost hs = root.history();
    let ghost g = nm_child(root.board, root.state_info, hs, depth as nat, ply as int, t);
    proof {
        orig.lemma_multiset_has_no_duplicates();
        moves@.lemma_multiset_has_no_duplicates_conv();
        assert(moves@.take(0) =~= Seq::<Move>::empty());
    }
    let mut best_move: Option<Move> = None;
    let mut i: usize = 0;
    while i < moves.len()
        invariant
            root == *old(board_state),
            t == *old(ctx).tables,
            hs == root.history(),
            g == nm_child(root.board, root.state_info, hs, depth as nat, ply as int, t),
            lawg == (alpha < beta && nm_plain(root.board, root.state_info, hs, depth as nat) && tree_distinct(
                root.board,
                root.state_info,
                hs,
                depth as nat,
            ) && tt_clear(*old(tt), root.board, root.state_info, hs, depth as nat)),
            moves@.no_duplicates(),
            forall|h: u64|
                !in_tree(root.board, root.state_info, hs, depth as nat, h) && old(tt).lookup(h) is None
                    ==> #[trigger] tt.lookup(h) is None,
            lawg ==> forall|h: u64|
                in_tree(root.board, root.state_info, hs, depth as nat, h) && !in_kids(
                    root.board,
                    root.state_info,
                    hs,
                    depth as nat,
                    moves@.take(i as int),
                    h,
                ) ==> #[trigger] tt.lookup(h) is None,
            best_move matches Some(bm) ==> alpha < a < beta && gen_move(root.board, root.state_info, false, bm),
            lawg ==> a < beta,
            lawg ==> forall|j: int| 0 <= j < i ==> #[trigger] g(moves@[j]) <= a,
            lawg ==> (best_move matches Some(bm) ==> g(bm) == a),
            count_eq(last_n(root.history(), root.state_info.half_move_clock as int), root.hash_value()) < 2,
            searchable(root, depth + 6),
            1 <= depth,
            1 <= ply,
            ply + depth + 6 <= 255,
            alpha > i32::MIN,
            a > i32::MIN,
            a >= alpha,
            best_move is None ==> a == alpha,
            !tt_settles(*old(tt), root.hash_value(), depth, alpha, beta, ply),
            beta > i32::MIN,
            ctx.wf(),
            ctx.tables == old(ctx).tables,
            tt.wf(),
            restored(root, *board_state),
            generated(root.board, root.state_info, false, moves@),
            i <= moves.len(),
        decreases moves.len() - i,
    {
        let mv = moves[i];
        proof {
            assert(gen_move(root.board, root.state_info, false, mv));
            crate::moves::lemma_move_squares(mv);
        }
        let ghost a0 = a;
        let ghost tt0 = *tt;
        let ghost cb = child_board(root.board, root.state_info, mv);
        let ghost cs = state_after_move(root.board.cells(), root.state_info, mv);
        let ghost ch = child_hist(root.board, root.state_info, hs);
        proof {
            if lawg {
                assert(nm_plain(cb, cs, ch, (depth - 1) as nat));
                assert(tree_distinct(cb, cs, ch, (depth - 1) as nat));
                assert forall|h: u64| #[trigger] in_tree(cb, cs, ch, (depth - 1) as nat, h) implies tt.lookup(h) is None by {
                    assert(in_tree(root.board, root.state_info, hs, depth as nat, h));
                    if in_kids(root.board, root.state_info, hs, depth as nat, moves@.take(i as int), h) {
                        let j = choose|j: int|
                            0 <= j < moves@.take(i as int).len() && #[trigger] in_tree(
                                child_board(root.board, root.state_info, moves@.take(i as int)[j]),
                                state_after_move(root.board.cells(), root.state_info, moves@.take(i as int)[j]),
                                child_hist(root.board, root.state_info, hs),
                                (depth - 1) as nat,
                                h,
                            );
                        let mj = moves@[j];
                        assert(moves@.take(i as int)[j] == mj);
                        assert(mj != mv);
                        assert(gen_move(root.board, root.state_info, false, mj));
                        assert(kids_disjoint(root.board, root.state_info, hs, depth as nat));
                        assert(state_after_move(root.board.cells(), root.state_info, mv) == cs);
                    }
                }
            }
        }
        let evaluation = search_child(board_state, mv, depth, a, beta, ply, ctx, tt, Ghost(root));
        proof {
            assert forall|h: u64|
                !in_tree(root.board, root.state_info, hs, depth as nat, h) && old(tt).lookup(h) is None
                    implies #[trigger] tt.lookup(h) is None by {
                if in_tree(cb, cs, ch, (depth - 1) as nat, h) {
                    assert(in_tree(root.board, root.state_info, hs, depth as nat, h));
                }
            }
            if lawg {
                assert forall|h: u64|
                    in_tree(root.board, root.state_info, hs, depth as nat, h) && !in_kids(
                        root.board,
                        root.state_info,
                        hs,
                        depth as nat,
                        moves@.take(i + 1),
                        h,
                    ) implies #[trigger] tt.lookup(h) is None by {
                    assert(moves@.take(i + 1)[i as int] == mv);
                    if in_tree(cb, cs, ch, (depth - 1) as nat, h) {
                        assert(in_kids(root.board, root.state_info, hs, depth as nat, moves@.take(i + 1), h));
                    }
                    if in_kids(root.board, root.state_info, hs, depth as nat, moves@.take(i as int), h) {
                        let j = choose|j: int|
                            0 <= j < moves@.take(i as int).len() && #[trigger] in_tree(
                                child_board(root.board, root.state_info, moves@.take(i as int)[j]),
                                state_after_move(root.board.cells(), root.state_info, moves@.take(i as int)[j]),
                                child_hist(root.board, root.state_info, hs),
                                (depth - 1) as nat,
                                h,
                            );
                        assert(moves@.take(i + 1)[j] == moves@.take(i as int)[j]);
                        assert(in_kids(root.board, root.state_info, hs, depth as nat, moves@.take(i + 1), h));
                    }
                    assert(tt0.lookup(h) is None);
                }
            }
        }
        match evaluation {
            None => {
                return None;
            },
            Some(e) => {
                if e >= beta {
                    let ghost tt1 = *tt;
                    let entry = TranspositionEntry::new(Some(mv), depth, beta, board_state.hash, Bound::Lower, ply);
                    tt.insert(entry);
                    proof {
                        assert(in_tree(root.board, root.state_info, hs, depth as nat, root.hash_value()));
                        assert forall|h: u64|
                            !in_tree(root.board, root.state_info, hs, depth as nat, h) && old(tt).lookup(h) is None
                                implies #[trigger] tt.lookup(h) is None by {
                            lemma_insert_keeps_none(tt1, *tt, entry, h);
                        }
                    }
                    if !mv.flags().is_capture() {
                        let mut k = ctx.killers[ply as usize];
                        store_killers(&mut k, mv);
                        ctx.killers.set(ply as usize, k);
                    }
                    proof {
                        if lawg {
                            lemma_nm_value_upper(root.board, root.state_info, hs, depth as nat, ply as int, t, mv);
                        }
                    }
                    return Some((beta, Bound::Lower));
                }
                if a < e {
                    a = e;
                    best_move = Some(mv);
                }
                proof {
                    if lawg {
                        assert(mv == moves@[i as int]);
                        assert(g(moves@[i as int]) <= a);
                        assert forall|j: int| 0 <= j < i + 1 implies #[trigger] g(moves@[j]) <= a by {
                            if j < i {
                                assert(g(moves@[j]) <= a0);
                            }
                        }
                    }
                }
            },
        }
        i = i + 1;
    }
    proof {
        if lawg {
            assert forall|m: Move| gen_move(root.board, root.state_info, false, m) implies #[trigger] g(m) <= a by {
                assert(moves@.contains(m));
                let j = choose|j: int| 0 <= j < moves@.len() && moves@[j] == m;
                assert(g(moves@[j]) <= a);
            }
            assert(gen_move(root.board, root.state_info, false, moves@[0]));
            lemma_nm_value_attained(root.board, root.state_info, hs, depth as nat, ply as int, t, moves@[0]);
            if let Some(bm) = best_move {
                lemma_nm_value_upper(root.board, root.state_info, hs, depth as nat, ply as int, t, bm);
            }
        }
    }
    let ghost tt1 = *tt;
    let kind = if best_move.is_none() { Bound::Upper } else { Bound::Exact };
    let entry = TranspositionEntry::new(best_move, depth, a, board_state.hash, kind, ply);
    tt.insert(entry);
    proof {
        assert(in_tree(root.board, root.state_info, hs, depth as nat, root.hash_value()));
        assert forall|h: u64|
            !in_tree(root.board, root.state_info, hs, depth as nat, h) && old(tt).lookup(h) is None
                implies #[trigger] tt.lookup(h) is None by {
            lemma_insert_keeps_none(tt1, *tt, entry, h);
        }
    }
    Some((a, kind))
}

/// Makes `mv`, searches the position after it one move shallower with the window turned
/// round, takes the move back and gives the score from this side's view.
fn search_child(
    board_state: &mut BoardState,
    mv: Move,
    depth: u8,
    alpha: i32,
    beta: i32,
    ply: u8,
    ctx: &mut SearchCtx,
    tt: &mut TranspositionTable,
    Ghost(root): Ghost<BoardState>,
) -> (r: Option<i32>)
    requires
        searchable(root, depth + 6),
        1 <= depth,
        ply + depth + 6 <= 255,
        alpha > i32::MIN,
        beta > i32::MIN,
        old(ctx).wf(),
        old(tt).wf(),
        restored(root, *old(board_state)),
        playable(root, false, mv),
    ensures
        restored(root, *final(board_state)),
        final(ctx).wf(),
        final(tt).wf(),
        r matches Some(s) ==> s > i32::MIN,
        r is None ==> final(ctx).nodes % 2048 == 0,
        final(ctx).tables == old(ctx).tables,
        forall|h: u64|
            !in_tree(
                child_board(root.board, root.state_info, mv),
                state_after_move(root.board.cells(), root.state_info, mv),
                child_hist(root.board, root.state_info, root.history()),
                (depth - 1) as nat,
                h,
            ) && old(tt).lookup(h) is None ==> #[trigger] final(tt).lookup(h) is None,
        alpha < beta && nm_plain(
            child_board(root.board, root.state_info, mv),
            state_after_move(root.board.cells(), root.state_info, mv),
            child_hist(root.board, root.state_info, root.history()),
            (depth - 1) as nat,
        ) && tree_distinct(
            child_board(root.board, root.state_info, mv),
            state_after_move(root.board.cells(), root.state_info, mv),
            child_hist(root.board, root.state_info, root.history()),
            (depth - 1) as nat,
        ) && tt_clear(
            *old(tt),
            child_board(root.board, root.state_info, mv),
            state_after_move(root.board.cells(), root.state_info, mv),
            child_hist(root.board, root.state_info, root.history()),
            (depth - 1) as nat,
        ) ==> (r matches Some(e) ==> window_ok(
            e as int,
            nm_child(root.board, root.state_info, root.history(), depth as nat, ply as int, *old(ctx).tables)(mv),
            alpha as int,
            beta as int,
        )),
    decreases depth, 0int,
{
    let ghost s0 = *board_state;
    let ghost t = *ctx.tables;
    let undo = make_generated(board_state, mv, Ghost(root), Ghost(depth + 6), Ghost(false));
    let ghost s1 = *board_state;
    proof {
        let c = child_board(root.board, root.state_info, mv);
        assert(c.wf() && c.cells() == s1.board.cells());
        crate::board::Board::lemma_board_ext(s1.board, c);
        assert(s1.history() == child_hist(root.board, root.state_info, root.history()));
        assert(((depth - 1) as u8) as nat == (depth - 1) as nat);
    }
    let r = search(board_state, depth - 1, -beta, -alpha, ply + 1, ctx, tt);
    take_back(board_state, &undo, Ghost(s0), Ghost(s1), Ghost(mv));
    proof {
        if let Some((e, _)) = r {
            let v = nm_child(root.board, root.state_info, root.history(), depth as nat, ply as int, t)(mv);
            if window_ok(e as int, -v, -beta as int, -alpha as int) {
                lemma_window_neg(e as int, -v, alpha as int, beta as int);
            }
        }
    }
    match r {
        Some((e, _)) => Some(-e),
        None => None,
    }
}

/// Searches each move of the position to `depth` and returns the best with its score,
/// the table move first and the others in capture order. `None` when the search must
/// stop, or when there is no move. Under the conditions of the value law of `search`
/// for the search after each move (`kid_ok`, `kids_disjoint`), the move returned has the
/// best score over the moves (`nm_child`), and the score is that one.
#[verifier::rlimit(80)]
pub fn search_root(
    board_state: &mut BoardState,
    depth: u8,
    ctx: &mut SearchCtx,
    tt: &mut TranspositionTable,
) -> (r: Option<(Move, i32)>)
    requires
        searchable(*old(board_state), depth + 6),
        1 <= depth,
        depth + 6 <= 254,
        old(ctx).wf(),
        old(tt).wf(),
        exists|m: Move| gen_move(old(board_state).board, old(board_state).state_info, false, m),
    ensures
        restored(*old(board_state), *final(board_state)),
        final(ctx).wf(),
        final(tt).wf(),
        r matches Some((m, s)) ==> gen_move(old(board_state).board, old(board_state).state_info, false, m)
            && s > i32::MIN,
        r is None ==> final(ctx).nodes % 2048 == 0,
        final(ctx).tables == old(ctx).tables,
        forall|h: u64|
            (forall|m: Move|
                gen_move(old(board_state).board, old(board_state).state_info, false, m) ==> !#[trigger] in_tree(
                    child_board(old(board_state).board, old(board_state).state_info, m),
                    state_after_move(old(board_state).board.cells(), old(board_state).state_info, m),
                    child_hist(old(board_state).board, old(board_state).state_info, old(board_state).history()),
                    (depth - 1) as nat,
                    h,
                )) && old(tt).lookup(h) is None ==> #[trigger] final(tt).lookup(h) is None,
        (forall|m: Move|
            gen_move(old(board_state).board, old(board_state).state_info, false, m) ==> #[trigger] kid_ok(
                *old(tt),
                old(board_state).board,
                old(board_state).state_info,
                old(board_state).history(),
                depth as nat,
                m,
                *old(ctx).tables,
            )) && kids_disjoint(old(board_state).board, old(board_state).state_info, old(board_state).history(), depth as nat)
            ==> (r matches Some((m, s)) ==> s == nm_child(
            old(board_state).board,
            old(board_state).state_info,
            old(board_state).history(),
            depth as nat,
            0,
            *old(ctx).tables,
        )(m) && forall|m2: Move|
            gen_move(old(board_state).board, old(board_state).state_info, false, m2) ==> #[trigger] nm_child(
                old(board_state).board,
                old(board_state).state_info,
                old(board_state).history(),
                depth as nat,
                0,
                *old(ctx).tables,
            )(m2) <= s),
{
    let ghost t = *ctx.tables;
    proof {
        lemma_legal_ready(board_state.board, board_state.state_info);
    }
    let mut moves = generate_moves(board_state, false);
    let ghost orig = moves@;
    let tt_move = match tt.get_entry(board_state.hash) {
        Some(e) => e.best_move,
        None => None,
    };
    proof {
        lemma_generated_readable(board_state.board, board_state.state_info, false, moves@);
    }
    order_moves(board_state, &mut moves, tt_move, [None, None]);
    proof {
        lemma_reordered(board_state.board, board_state.state_info, false, orig, moves@);
        broadcast use vstd::seq_lib::group_to_multiset_ensures;
        assert forall|m: Move| gen_move(board_state.board, board_state.state_info, false, m) implies moves@.contains(m) by {
            assert(orig.contains(m));
            assert(orig.to_multiset().count(m) > 0);
        }
    }
    proof {
        let m0 = choose|m: Move| gen_move(board_state.board, board_state.state_info, false, m);
        assert(moves@.contains(m0));
    }
    proof {
        assert(gen_move(board_state.board, board_state.state_info, false, moves@[0]));
    }
    let ghost root = *board_state;
    let ghost hs = root.history();
    let ghost g = nm_child(root.board, root.state_info, hs, depth as nat, 0, t);
    let ghost law = (forall|m: Move|
        gen_move(root.board, root.state_info, false, m) ==> #[trigger] kid_ok(
            *old(tt),
            root.board,
            root.state_info,
            hs,
            depth as nat,
            m,
            t,
        )) && kids_disjoint(root.board, root.state_info, hs, depth as nat);
    proof {
        orig.lemma_multiset_has_no_duplicates();
        moves@.lemma_multiset_has_no_duplicates_conv();
        if law {
            assert forall|h: u64|
                in_kids(root.board, root.state_info, hs, depth as nat, moves@.subrange(0, moves@.len() as int), h)
                    implies #[trigger] tt.lookup(h) is None by {
                let j = choose|j: int|
                    0 <= j < moves@.subrange(0, moves@.len() as int).len() && #[trigger] in_tree(
                        child_board(root.board, root.state_info, moves@.subrange(0, moves@.len() as int)[j]),
                        state_after_move(root.board.cells(), root.state_info, moves@.subrange(0, moves@.len() as int)[j]),
                        child_hist(root.board, root.state_info, hs),
                        (depth - 1) as nat,
                        h,
                    );
                assert(moves@.subrange(0, moves@.len() as int)[j] == moves@[j]);
                assert(gen_move(root.board, root.state_info, false, moves@[j]));
                assert(kid_ok(*old(tt), root.board, root.state_info, hs, depth as nat, moves@[j], t));
            }
        }
    }
    let mut best_move = moves[0];
    let mut best_score: i32 = i32::MIN + 1;
    let mut i: usize = 0;
    while i < moves.len()
        invariant
            root == *old(board_state),
            t == *old(ctx).tables,
            ctx.tables == old(ctx).tables,
            hs == root.history(),
            g == nm_child(root.board, root.state_info, hs, depth as nat, 0, t),
            law ==> (forall|m: Move|
                gen_move(root.board, root.state_info, false, m) ==> #[trigger] kid_ok(
                    *old(tt),
                    root.board,
                    root.state_info,
                    hs,
                    depth as nat,
                    m,
                    t,
                )) && kids_disjoint(root.board, root.state_info, hs, depth as nat),
            moves@.no_duplicates(),
            forall|h: u64|
                (forall|m: Move|
                    gen_move(root.board, root.state_info, false, m) ==> !#[trigger] in_tree(
                        child_board(root.board, root.state_info, m),
                        state_after_move(root.board.cells(), root.state_info, m),
                        child_hist(root.board, root.state_info, hs),
                        (depth - 1) as nat,
                        h,
                    )) && old(tt).lookup(h) is None ==> #[trigger] tt.lookup(h) is None,
            law ==> forall|h: u64|
                in_kids(root.board, root.state_info, hs, depth as nat, moves@.subrange(i as int, moves@.len() as int), h)
                    ==> #[trigger] tt.lookup(h) is None,
            i == 0 ==> best_score == i32::MIN + 1,
            law ==> best_score < i32::MAX,
            law && i > 0 ==> g(best_move) == best_score,
            law ==> forall|j: int| 0 <= j < i ==> #[trigger] g(moves@[j]) <= best_score,
            searchable(root, depth + 6),
            1 <= depth,
            depth + 6 <= 254,
            best_score > i32::MIN,
            gen_move(root.board, root.state_info, false, best_move),
            ctx.wf(),
            tt.wf(),
            restored(root, *board_state),
            generated(root.board, root.state_info, false, moves@),
            moves@.len() >= 1,
            i <= moves.len(),
        decreases moves.len() - i,
    {
        let mv = moves[i];
        let ghost b0 = best_score;
        let ghost tt0 = *tt;
        let ghost cb = child_board(root.board, root.state_info, mv);
        let ghost cs = state_after_move(root.board.cells(), root.state_info, mv);
        let ghost ch = child_hist(root.board, root.state_info, hs);
        proof {
            assert(gen_move(root.board, root.state_info, false, mv));
            if law {
                assert(kid_ok(*old(tt), root.board, root.state_info, hs, depth as nat, mv, t));
                assert forall|h: u64| #[trigger] in_tree(cb, cs, ch, (depth - 1) as nat, h) implies tt.lookup(h) is None by {
                    let rest = moves@.subrange(i as int, moves@.len() as int);
                    assert(rest[0] == mv);
                    assert(in_kids(root.board, root.state_info, hs, depth as nat, rest, h));
                }
            }
        }
        let score = search_child(board_state, mv, depth, best_score, i32::MAX, 0, ctx, tt, Ghost(root));
        proof {
            assert forall|h: u64|
                (forall|m: Move|
                    gen_move(root.board, root.state_info, false, m) ==> !#[trigger] in_tree(
                        child_board(root.board, root.state_info, m),
                        state_after_move(root.board.cells(), root.state_info, m),
                        child_hist(root.board, root.state_info, hs),
                        (depth - 1) as nat,
                        h,
                    )) && old(tt).lookup(h) is None implies #[trigger] tt.lookup(h) is None by {
                assert(!in_tree(cb, cs, ch, (depth - 1) as nat, h));
                assert(tt0.lookup(h) is None);
            }
            if law {
                if let Some(sc) = score {
                    lemma_open_window(sc as int, g(mv), b0 as int);
                }
                let rest = moves@.subrange(i as int, moves@.len() as int);
                let rest2 = moves@.subrange(i + 1, moves@.len() as int);
                assert forall|h: u64|
                    in_kids(root.board, root.state_info, hs, depth as nat, rest2, h) implies #[trigger] tt.lookup(h) is None by {
                    let j = choose|j: int|
                        0 <= j < rest2.len() && #[trigger] in_tree(
                            child_board(root.board, root.state_info, rest2[j]),
                            state_after_move(root.board.cells(), root.state_info, rest2[j]),
                            child_hist(root.board, root.state_info, hs),
                            (depth - 1) as nat,
                            h,
                        );
                    let mj = rest2[j];
                    assert(mj == moves@[i + 1 + j]);
                    assert(rest[j + 1] == mj);
                    assert(in_kids(root.board, root.state_info, hs, depth as nat, rest, h));
                    assert(mj != mv);
                    assert(gen_move(root.board, root.state_info, false, mj));
                    assert(state_after_move(root.board.cells(), root.state_info, mv) == cs);
                    assert(!in_tree(cb, cs, ch, (depth - 1) as nat, h));
                    assert(tt0.lookup(h) is None);
                }
            }
        }
        match score {
            None => {
                return None;
            },
            Some(sc) => {
                if sc > best_score {
                    best_score = sc;
                    best_move = mv;
                }
                proof {
                    if law {
                        assert(mv == moves@[i as int]);
                        assert(g(moves@[i as int]) <= best_score);
                        if i == 0 {
                            assert(g(best_move) == best_score);
                        }
                        assert forall|j: int| 0 <= j < i + 1 implies #[trigger] g(moves@[j]) <= best_score by {
                            if j < i {
                                assert(g(moves@[j]) <= b0);
                            }
                        }
                    }
                }
            },
        }
        i = i + 1;
    }
    proof {
        if law {
            assert forall|m: Move| gen_move(root.board, root.state_info, false, m) implies #[trigger] g(m) <= best_score by {
                assert(moves@.contains(m));
                let j = choose|j: int| 0 <= j < moves@.len() && moves@[j] == m;
                assert(g(moves@[j]) <= best_score);
            }
        }
    }
    Some((best_move, best_score))
}

/// The depth cap: `max_depth`, at most 248, lowered so that the halfmove clock stays
/// within 255 over the search and six more plies; 0 when the fullmove number would pass
/// 2^32 - 1 over them.
pub open spec fn depth_cap_spec(max_depth: int, half_move_clock: int, full_move_number: int) -> int {
    let c1 = if max_depth > 248 { 248 } else { max_depth };
    let c2 = if half_move_clock + c1 + 6 <= 255 {
        c1
    } else if half_move_clock >= 249 {
        0
    } else {
        249 - half_move_clock
    };
    if full_move_number + c2 + 6 > 0xFFFF_FFFF {
        0
    } else {
        c2
    }
}

/// The deepest search that the move counters and the distance from the root allow,
/// `max_depth` at most (see `depth_cap_spec`).
pub fn depth_cap(max_depth: u8, si: &crate::state_info::StateInfo) -> (r: u8)
    ensures
        r <= max_depth,
        r + 6 <= 254,
        r >= 1 ==> si.half_move_clock + r + 6 <= 255 && si.full_move_number + r + 6 <= 0xFFFF_FFFF,
        r == depth_cap_spec(max_depth as int, si.half_move_clock as int, si.full_move_number as int),
{
    let mut cap: u8 = if max_depth > 248 { 248 } else { max_depth };
    let hmc = si.half_move_clock;
    if hmc as u16 + cap as u16 + 6 > 255 {
        cap = if hmc >= 249 { 0 } else { 249 - hmc };
    }
    if si.full_move_number as u64 + cap as u64 + 6 > 0xFFFF_FFFF {
        cap = 0;
    }
    cap
}

/// The move `m` is legal and scores best over the legal moves in a search `depth` moves
/// deep (see `nm_child`).
pub open spec fn best_at(bs: BoardState, depth: nat, t: PieceSquareTables, m: Move) -> bool {
    &&& gen_move(bs.board, bs.state_info, false, m)
    &&& forall|m2: Move|
        gen_move(bs.board, bs.state_info, false, m2) ==> #[trigger] nm_child(
            bs.board,
            bs.state_info,
            bs.history(),
            depth,
            0,
            t,
        )(m2) <= nm_child(bs.board, bs.state_info, bs.history(), depth, 0, t)(m)
}

/// The conditions of the value law of `search` for the searches after each legal move,
/// `depth - 1` moves deep, with the table `tt` (see `kid_ok` and `kids_disjoint`).
pub open spec fn root_law(tt: TranspositionTable, bs: BoardState, depth: nat, t: PieceSquareTables) -> bool {
    &&& forall|m: Move|
        gen_move(bs.board, bs.state_info, false, m) ==> #[trigger] kid_ok(
            tt,
            bs.board,
            bs.state_info,
            bs.history(),
            depth,
            m,
            t,
        )
    &&& kids_disjoint(bs.board, bs.state_info, bs.history(), depth)
}

/// The depths iterative deepening searches from the position for `max_depth` (see
/// `depth_cap_spec`).
pub open spec fn id_cap(bs: BoardState, max_depth: u8) -> int {
    depth_cap_spec(max_depth as int, bs.state_info.half_move_clock as int, bs.state_info.full_move_number as int)
}

/// Iterative deepening goes at most two moves deep, and the value law of `search` holds
/// at each of its depths with the table `tt` (see `root_law`).
pub open spec fn id_law(tt: TranspositionTable, bs: BoardState, max_depth: u8, t: PieceSquareTables) -> bool {
    id_cap(bs, max_depth) <= 2 && forall|d: nat| 1 <= d <= id_cap(bs, max_depth) ==> #[trigger] root_law(tt, bs, d, t)
}

/// The move `m` scores best over the legal moves at one of the depths iterative
/// deepening searches (see `best_at`).
pub open spec fn id_found(bs: BoardState, max_depth: u8, t: PieceSquareTables, m: Move) -> bool {
    exists|d: nat| 1 <= d <= id_cap(bs, max_depth) && #[trigger] best_at(bs, d, t, m)
}

/// `best_at` at a depth given as a byte.
pub open spec fn best_at_u8(bs: BoardState, depth: u8, t: PieceSquareTables, m: Move) -> bool {
    best_at(bs, depth as nat, t, m)
}

/// `root_law` at a depth given as a byte.
pub open spec fn root_law_u8(tt: TranspositionTable, bs: BoardState, depth: u8, t: PieceSquareTables) -> bool {
    root_law(tt, bs, depth as nat, t)
}

/// The conditions of `id_law` at the depth `d` still hold with a table that has no
/// entry where the first had none.
proof fn lemma_root_law_at(
    tt0: TranspositionTable,
    tt1: TranspositionTable,
    bs: BoardState,
    max_depth: u8,
    t: PieceSquareTables,
    d: u8,
)
    requires
        id_law(tt0, bs, max_depth, t),
        1 <= d <= id_cap(bs, max_depth),
        forall|h: u64| tt0.lookup(h) is None ==> #[trigger] tt1.lookup(h) is None,
    ensures
        root_law_u8(tt1, bs, d, t),
{
    assert(root_law(tt0, bs, d as nat, t));
    assert forall|m: Move| gen_move(bs.board, bs.state_info, false, m) implies #[trigger] kid_ok(
        tt1,
        bs.board,
        bs.state_info,
        bs.history(),
        d as nat,
        m,
        t,
    ) by {
        assert(kid_ok(tt0, bs.board, bs.state_info, bs.history(), d as nat, m, t));
    }
}

/// A best move at a searched depth is one `id_found` speaks of.
proof fn lemma_id_found(bs: BoardState, max_depth: u8, t: PieceSquareTables, m: Move, d: u8)
    requires
        1 <= d <= id_cap(bs, max_depth),
        best_at_u8(bs, d, t, m),
    ensures
        id_found(bs, max_depth, t, m),
{
    assert(best_at(bs, d as nat, t, m));
}

/// A search one move deep stores nothing: the table has no entry where it had none.
proof fn lemma_depth_one_frame(tt0: TranspositionTable, tt1: TranspositionTable, bs: BoardState, depth: u8)
    requires
        depth == 1,
        forall|h: u64|
            (forall|m: Move|
                gen_move(bs.board, bs.state_info, false, m) ==> !#[trigger] in_tree(
                    child_board(bs.board, bs.state_info, m),
                    state_after_move(bs.board.cells(), bs.state_info, m),
                    child_hist(bs.board, bs.state_info, bs.history()),
                    (depth - 1) as nat,
                    h,
                )) && tt0.lookup(h) is None ==> #[trigger] tt1.lookup(h) is None,
    ensures
        forall|h: u64| tt0.lookup(h) is None ==> #[trigger] tt1.lookup(h) is None,
{
    assert forall|h: u64| tt0.lookup(h) is None implies #[trigger] tt1.lookup(h) is None by {
        assert forall|m: Move| gen_move(bs.board, bs.state_info, false, m) implies !#[trigger] in_tree(
            child_board(bs.board, bs.state_info, m),
            state_after_move(bs.board.cells(), bs.state_info, m),
            child_hist(bs.board, bs.state_info, bs.history()),
            (depth - 1) as nat,
            h,
        ) by {}
    }
}

/// Searches deeper and deeper, from depth 1 up to `max_depth` (or as deep as the move
/// counters allow, see `depth_cap`), until a depth is cut short or the stop flag is set,
/// reporting each finished depth (depth, score, milliseconds, nodes, best move) to
/// `report`; returns the best move of the last finished depth (the first move generated
/// when none finished) and the number of nodes searched. The position has a legal move.
pub fn iterative_deepening<F: Fn(u8, i32, u64, u64, Move)>(
    board_state: &mut BoardState,
    max_depth: u8,
    budget_ms: Option<u64>,
    stop_flag: &AtomicBool,
    tt: &mut TranspositionTable,
    tables: &PieceSquareTables,
    report: F,
) -> (r: (Move, u64))
    requires
        searchable(*old(board_state), 0),
        old(tt).wf(),
        tables.bounded(),
        forall|d: u8, s: i32, t: u64, n: u64, m: Move| report.requires((d, s, t, n, m)),
        exists|m: Move| gen_move(old(board_state).board, old(board_state).state_info, false, m),
    ensures
        restored(*old(board_state), *final(board_state)),
        final(tt).wf(),
        gen_move(old(board_state).board, old(board_state).state_info, false, r.0),
        r.1 % 2048 != 0 && id_law(*old(tt), *old(board_state), max_depth, *tables) ==> id_found(
            *old(board_state),
            max_depth,
            *tables,
            r.0,
        ),
{
    let start = clock_now();
    proof {
        lemma_legal_ready(board_state.board, board_state.state_info);
    }
    let moves = generate_moves(board_state, false);
    proof {
        let m0 = choose|m: Move| gen_move(board_state.board, board_state.state_info, false, m);
        assert(moves@.contains(m0));
    }
    let mut best_move = moves[0];
    let mut killers: Vec<[Option<Move>; 2]> = Vec::new();
    while killers.len() < 256
        invariant
            killers@.len() <= 256,
        decreases 256 - killers@.len(),
    {
        killers.push([None, None]);
    }
    let mut ctx = SearchCtx { nodes: 0, stop_flag, start, budget_ms, killers, tables };
    let cap = depth_cap(max_depth, &board_state.state_info);
    let ghost root = *board_state;
    let ghost t = *tables;
    let ghost law = id_law(*old(tt), root, max_depth, t);
    let ghost mut fin: u8 = 0;
    let mut depth: u8 = 1;
    while depth <= cap
        invariant_except_break
            depth <= 2 ==> forall|h: u64| old(tt).lookup(h) is None ==> #[trigger] tt.lookup(h) is None,
        invariant
            root == *old(board_state),
            t == *tables,
            *ctx.tables == t,
            cap == id_cap(root, max_depth),
            law == id_law(*old(tt), root, max_depth, t),
            fin < depth,
            fin == 0 ==> ctx.nodes % 2048 == 0,
            law && fin >= 1 ==> best_at_u8(root, fin, t, best_move),
            searchable(root, 0),
            cap + 6 <= 254,
            cap >= 1 ==> root.state_info.half_move_clock + cap + 6 <= 255
                && root.state_info.full_move_number + cap + 6 <= 0xFFFF_FFFF,
            1 <= depth <= cap + 1,
            ctx.wf(),
            tt.wf(),
            restored(root, *board_state),
            gen_move(root.board, root.state_info, false, best_move),
            forall|d: u8, s: i32, t: u64, n: u64, m: Move| report.requires((d, s, t, n, m)),
        decreases cap + 1 - depth,
    {
        if stop_flag.load(Ordering::Relaxed) {
            break;
        }
        let ghost before = *board_state;
        proof {
            assert(searchable(*board_state, depth + 6));
            assert(gen_move(board_state.board, board_state.state_info, false, best_move));
        }
        let ghost tt0 = *tt;
        proof {
            if law {
                lemma_root_law_at(*old(tt), tt0, root, max_depth, t, depth);
            }
        }
        match search_root(board_state, depth, &mut ctx, tt) {
            None => {
                break;
            },
            Some((mv, score)) => {
                proof {
                    assert(gen_move(before.board, before.state_info, false, mv));
                    assert(before.board == root.board);
                    if depth == 1 {
                        lemma_depth_one_frame(tt0, *tt, root, depth);
                    }
                    if law {
                        assert(best_at_u8(root, depth, t, mv));
                    }
                    fin = depth;
                }
                best_move = mv;
                report(depth, score, elapsed_ms(&ctx.start), ctx.nodes, mv);
            },
        }
        depth = depth + 1;
    }
    proof {
        assert(gen_move(root.board, root.state_info, false, best_move));
        if law && ctx.nodes % 2048 != 0 {
            lemma_id_found(root, max_depth, t, best_move, fin);
        }
    }
    (best_move, ctx.nodes)
}

} // verus!
