use vstd::prelude::*;
use crate::board::Board;
use crate::board_state::{
    cells_after_move, law_make_undo_roundtrip, move_ok, state_after_move, BoardState,
};
use crate::generate::{gen_move, gen_ready, generate_moves, generated};
use crate::legality::{law_generated_move_legal, lemma_legal_ready};
use crate::moves::Move;
use crate::position::legal_position;
use crate::state_info::StateInfo;
use vstd::relations::injective;
use vstd::set_lib::{lemma_int_range, lemma_len_subset, set_int_range};
use vstd::arithmetic::div_mod::lemma_add_mod_noop;

verus! {

/// The legal moves of the side to move, as `generate_moves` produces them.
pub open spec fn legal_moves(b: Board, si: StateInfo) -> Set<Move> {
    Set::new(|m: Move| gen_move(b, si, false, m))
}

/// The packed value of a move.
pub open spec fn move_value() -> spec_fn(Move) -> int {
    |m: Move| m.0 as int
}

/// A list of pairwise different moves holds at most 2^16 of them.
proof fn lemma_distinct_moves_bound(s: Seq<Move>)
    requires
        s.no_duplicates(),
    ensures
        s.len() <= 0x10000,
{
    let f = move_value();
    assert(injective(f)) by {
        assert forall|x1: Move, x2: Move| #[trigger] f(x1) == #[trigger] f(x2) implies x1 == x2 by {}
    }
    s.lemma_no_duplicates_injective(f);
    let t = s.map_values(f);
    t.unique_seq_to_set();
    lemma_int_range(0, 0x10000);
    assert(t.to_set().subset_of(set_int_range(0, 0x10000))) by {
        assert forall|v: int| t.to_set().contains(v) implies set_int_range(0, 0x10000).contains(v) by {
            let i = choose|i: int| 0 <= i < t.len() && t[i] == v;
            assert(t[i] == s[i].0 as int);
        }
    }
    lemma_len_subset(t.to_set(), set_int_range(0, 0x10000));
}

/// The board after the move `m`: a consistent board holding the squares the move leaves.
pub open spec fn child_board(b: Board, si: StateInfo, m: Move) -> Board {
    choose|c: Board| c.wf() && c.cells() == cells_after_move(b.cells(), si.active_color, m)
}

/// The number of sequences of `depth` legal moves from the position (perft).
pub open spec fn perft_spec(b: Board, si: StateInfo, depth: nat) -> int
    decreases depth, 0x10001int,
{
    if depth == 0 {
        1
    } else {
        perft_upto(b, si, depth, 0x10000)
    }
}

/// The part of `perft_spec` that the moves with packed value below `n` contribute.
pub open spec fn perft_upto(b: Board, si: StateInfo, depth: nat, n: int) -> int
    decreases depth, n,
{
    if depth == 0 || n <= 0 {
        0
    } else {
        let m = Move((n - 1) as u16);
        perft_upto(b, si, depth, n - 1) + if gen_move(b, si, false, m) {
            perft_spec(child_board(b, si, m), state_after_move(b.cells(), si, m), (depth - 1) as nat)
        } else {
            0
        }
    }
}

/// What a move contributes to `perft_spec` at `depth`: the count after it when it is
/// legal, else nothing.
pub open spec fn perft_term(b: Board, si: StateInfo, depth: nat) -> spec_fn(Move) -> int {
    |m: Move|
        if gen_move(b, si, false, m) {
            perft_spec(child_board(b, si, m), state_after_move(b.cells(), si, m), (depth - 1) as nat)
        } else {
            0
        }
}

/// The sum of `g` over the moves with packed value below `n`.
pub open spec fn range_sum(g: spec_fn(Move) -> int, n: int) -> int
    decreases n,
{
    if n <= 0 {
        0
    } else {
        range_sum(g, n - 1) + g(Move((n - 1) as u16))
    }
}

/// The sum of `g` over the moves of a list.
pub open spec fn seq_sum(s: Seq<Move>, g: spec_fn(Move) -> int) -> int
    decreases s.len(),
{
    if s.len() == 0 {
        0
    } else {
        seq_sum(s.drop_last(), g) + g(s.last())
    }
}

proof fn lemma_perft_upto(b: Board, si: StateInfo, depth: nat, n: int)
    requires
        depth >= 1,
        0 <= n <= 0x10000,
    ensures
        perft_upto(b, si, depth, n) == range_sum(perft_term(b, si, depth), n),
    decreases n,
{
    if n > 0 {
        lemma_perft_upto(b, si, depth, n - 1);
    }
}

proof fn lemma_seq_sum_concat(a: Seq<Move>, c: Seq<Move>, g: spec_fn(Move) -> int)
    ensures
        seq_sum(a + c, g) == seq_sum(a, g) + seq_sum(c, g),
    decreases c.len(),
{
    if c.len() > 0 {
        lemma_seq_sum_concat(a, c.drop_last(), g);
        assert((a + c).drop_last() =~= a + c.drop_last());
    } else {
        assert(a + c =~= a);
    }
}

/// Taking one move out of a list takes its value out of the sum.
proof fn lemma_seq_sum_remove(s: Seq<Move>, i: int, g: spec_fn(Move) -> int)
    requires
        0 <= i < s.len(),
    ensures
        seq_sum(s, g) == seq_sum(s.remove(i), g) + g(s[i]),
{
    let a = s.take(i);
    let c = s.skip(i + 1);
    let one = seq![s[i]];
    assert(s =~= (a + one) + c);
    assert(s.remove(i) =~= a + c);
    lemma_seq_sum_concat(a + one, c, g);
    lemma_seq_sum_concat(a, one, g);
    lemma_seq_sum_concat(a, c, g);
    assert(one.drop_last() =~= Seq::<Move>::empty());
    assert(seq_sum(Seq::<Move>::empty(), g) == 0);
    assert(one.last() == s[i]);
    assert(seq_sum(one, g) == g(s[i]));
}

/// Over a list of different moves that holds every move on which `g` is not zero, all
/// below `n`, the sum of `g` is its sum over the moves below `n`.
proof fn lemma_seq_sum_range(s: Seq<Move>, g: spec_fn(Move) -> int, n: int)
    requires
        0 <= n <= 0x10000,
        s.no_duplicates(),
        forall|i: int| 0 <= i < s.len() ==> (#[trigger] s[i]).0 < n,
        forall|v: u16| v < n && #[trigger] g(Move(v)) != 0 ==> s.contains(Move(v)),
    ensures
        seq_sum(s, g) == range_sum(g, n),
    decreases n,
{
    if n == 0 {
        if s.len() > 0 {
            assert(s[0].0 < 0);
        }
    } else {
        let x = Move((n - 1) as u16);
        if s.contains(x) {
            let i = choose|i: int| 0 <= i < s.len() && s[i] == x;
            let r = s.remove(i);
            lemma_seq_sum_remove(s, i, g);
            assert forall|j: int| 0 <= j < r.len() implies (#[trigger] r[j]).0 < n - 1 by {
                let k = if j < i { j } else { j + 1 };
                assert(r[j] == s[k]);
                assert(k != i);
            }
            assert(r.no_duplicates()) by {
                assert forall|j: int, l: int| 0 <= j < r.len() && 0 <= l < r.len() && j != l implies r[j] != r[l] by {
                    let kj = if j < i { j } else { j + 1 };
                    let kl = if l < i { l } else { l + 1 };
                    assert(r[j] == s[kj] && r[l] == s[kl]);
                }
            }
            assert forall|v: u16| v < n - 1 && #[trigger] g(Move(v)) != 0 implies r.contains(Move(v)) by {
                assert(s.contains(Move(v)));
                let k = choose|k: int| 0 <= k < s.len() && s[k] == Move(v);
                assert(k != i);
                let j = if k < i { k } else { k - 1 };
                assert(r[j] == s[k]);
            }
            lemma_seq_sum_range(r, g, n - 1);
        } else {
            assert forall|j: int| 0 <= j < s.len() implies (#[trigger] s[j]).0 < n - 1 by {
                if s[j].0 == n - 1 {
                    assert(s[j] == x);
                }
            }
            assert(g(x) == 0);
            lemma_seq_sum_range(s, g, n - 1);
        }
    }
}

/// A sum of ones over a list is its length.
proof fn lemma_seq_sum_ones(s: Seq<Move>, g: spec_fn(Move) -> int)
    requires
        forall|i: int| 0 <= i < s.len() ==> g(#[trigger] s[i]) == 1,
    ensures
        seq_sum(s, g) == s.len(),
    decreases s.len(),
{
    if s.len() > 0 {
        assert forall|i: int| 0 <= i < s.drop_last().len() implies g(#[trigger] s.drop_last()[i]) == 1 by {
            assert(s.drop_last()[i] == s[i]);
        }
        lemma_seq_sum_ones(s.drop_last(), g);
        assert(g(s[s.len() - 1]) == 1);
    }
}

/// What a search may ask of a position: consistent, legal, and with counters far enough
/// from their limits for `n` more moves.
pub open spec fn searchable(bs: BoardState, n: int) -> bool {
    &&& bs.wf()
    &&& legal_position(bs.board.cells(), bs.state_info)
    &&& bs.state_info.half_move_clock + n <= 255
    &&& bs.state_info.full_move_number + n <= 0xFFFF_FFFF
}

/// The position after a search of it: the same pieces, state fields, hash and history.
pub open spec fn restored(before: BoardState, after: BoardState) -> bool {
    &&& after.wf()
    &&& after.board == before.board
    &&& after.history() == before.history()
    &&& after.state_info == before.state_info
    &&& after.hash_value() == before.hash_value()
}

/// A move generated at `root` (capture-only when `only_capture`) that leads to a legal
/// position: every such move but an en passant capture that capture-only generation
/// lets through while it uncovers the king's rank.
pub open spec fn playable(root: BoardState, only_capture: bool, m: Move) -> bool {
    &&& gen_move(root.board, root.state_info, only_capture, m)
    &&& (only_capture && m.flag() == crate::moves::MoveFlag::EnPassant ==> crate::movegen::ep_discovery_ok(
        root.board,
        root.state_info.active_color,
        m.from_sq().0 as int,
        crate::movegen::fwd(root.state_info.active_color, m.to_sq().0 as int, -1),
    ))
}

/// Makes the playable move `m` on `bs` (a position searched from `root`), giving a
/// searchable child; returns the record that takes it back.
pub fn make_generated(bs: &mut BoardState, m: Move, Ghost(root): Ghost<BoardState>, Ghost(n): Ghost<int>, Ghost(only_capture): Ghost<bool>) -> (u: crate::state_info::Undo)
    requires
        searchable(root, n),
        n >= 1,
        restored(root, *old(bs)),
        playable(root, only_capture, m),
    ensures
        searchable(*final(bs), n - 1),
        final(bs).board.cells() == cells_after_move(root.board.cells(), root.state_info.active_color, m),
        final(bs).state_info == state_after_move(root.board.cells(), root.state_info, m),
        final(bs).history() == old(bs).history().push(old(bs).hash_value()),
        u == crate::board_state::undo_record(old(bs).board.cells(), old(bs).state_info, m),
        move_ok(old(bs).board.cells(), old(bs).state_info, m),
{
    proof {
        law_generated_move_legal(root.board, root.state_info, only_capture, m);
        assert(move_ok(bs.board.cells(), bs.state_info, m));
    }
    bs.make_move(m)
}

/// Takes back the move `m` made on `s0` (giving `s1`), from a position that search left
/// as it found it (`restored`), getting back to `s0`.
pub fn take_back(bs: &mut BoardState, undo: &crate::state_info::Undo, Ghost(s0): Ghost<BoardState>, Ghost(s1): Ghost<BoardState>, Ghost(m): Ghost<Move>)
    requires
        s0.wf(),
        move_ok(s0.board.cells(), s0.state_info, m),
        s1.wf(),
        s1.board.cells() == cells_after_move(s0.board.cells(), s0.state_info.active_color, m),
        s1.state_info == state_after_move(s0.board.cells(), s0.state_info, m),
        s1.history() == s0.history().push(s0.hash_value()),
        *undo == crate::board_state::undo_record(s0.board.cells(), s0.state_info, m),
        restored(s1, *old(bs)),
    ensures
        final(bs).wf(),
        final(bs).board == s0.board,
        final(bs).state_info == s0.state_info,
        final(bs).history() == s0.history(),
{
    proof {
        crate::board_state::law_undo_after_make(s0.board.cells(), s0.state_info, m);
    }
    bs.undo_move(undo);
    proof {
        law_make_undo_roundtrip(s0, m, *undo, s1, *bs);
    }
}

/// Makes the generated move `m`, counts the move sequences of length `depth - 1` after
/// it and takes the move back.
fn count_after(board_state: &mut BoardState, m: Move, depth: u8, Ghost(root): Ghost<BoardState>) -> (r: u32)
    requires
        depth >= 2,
        searchable(root, depth - 1),
        restored(root, *old(board_state)),
        gen_move(root.board, root.state_info, false, m),
    ensures
        restored(root, *final(board_state)),
        r == perft_spec(
            child_board(root.board, root.state_info, m),
            state_after_move(root.board.cells(), root.state_info, m),
            (depth - 1) as nat,
        ) % 0x1_0000_0000,
    decreases depth, 0int,
{
    let ghost s0 = *board_state;
    let undo = make_generated(board_state, m, Ghost(root), Ghost(depth - 1), Ghost(false));
    let ghost s1 = *board_state;
    proof {
        crate::board_state::law_undo_after_make(s0.board.cells(), s0.state_info, m);
    }
    proof {
        lemma_legal_ready(s1.board, s1.state_info);
    }
    let n = number_of_moves(board_state, depth - 1);
    proof {
        let c = child_board(root.board, root.state_info, m);
        assert(c.wf() && c.cells() == s1.board.cells());
        crate::board::Board::lemma_board_ext(s1.board, c);
    }
    board_state.undo_move(&undo);
    proof {
        let s2 = *board_state;
        law_make_undo_roundtrip(s0, m, undo, s1, s2);
    }
    n
}

/// Two functions that agree on the moves of `s` have the same sum over it.
proof fn lemma_seq_sum_agree(s: Seq<Move>, g1: spec_fn(Move) -> int, g2: spec_fn(Move) -> int)
    requires
        forall|i: int| 0 <= i < s.len() ==> g1(#[trigger] s[i]) == g2(s[i]),
    ensures
        seq_sum(s, g1) == seq_sum(s, g2),
    decreases s.len(),
{
    if s.len() > 0 {
        let d = s.drop_last();
        assert forall|i: int| 0 <= i < d.len() implies g1(#[trigger] d[i]) == g2(d[i]) by {
            assert(d[i] == s[i]);
        }
        lemma_seq_sum_agree(d, g1, g2);
        assert(g1(s.last()) == g2(s[s.len() - 1]));
    }
}

/// Law: the count `depth` moves deep is the sum, over a list that holds each legal move
/// once, of the counts one move less deep after each move (so the count one move deep
/// is the number of legal moves).
pub proof fn law_perft_sum(b: Board, si: StateInfo, depth: nat, moves: Seq<Move>)
    requires
        depth >= 1,
        moves.no_duplicates(),
        forall|m: Move| gen_move(b, si, false, m) <==> #[trigger] moves.contains(m),
    ensures
        perft_spec(b, si, depth) == seq_sum(
            moves,
            |m: Move| perft_spec(child_board(b, si, m), state_after_move(b.cells(), si, m), (depth - 1) as nat),
        ),
{
    let g = perft_term(b, si, depth);
    let h = |m: Move| perft_spec(child_board(b, si, m), state_after_move(b.cells(), si, m), (depth - 1) as nat);
    lemma_perft_upto(b, si, depth, 0x10000);
    assert forall|v: u16| v < 0x10000 && #[trigger] g(Move(v)) != 0 implies moves.contains(Move(v)) by {}
    lemma_seq_sum_range(moves, g, 0x10000);
    assert forall|i: int| 0 <= i < moves.len() implies g(#[trigger] moves[i]) == h(moves[i]) by {
        assert(moves.contains(moves[i]));
    }
    lemma_seq_sum_agree(moves, g, h);
}

/// The number of move sequences of length `depth` from the position (perft): 1 at depth
/// 0, the number of legal moves (`legal_moves`) at depth 1, and the sum over the moves
/// below that. The position is taken back to where it was (see `restored`). The total
/// is counted modulo 2^32. At depth 0 any position counts 1, at depth 1 any position
/// that move generation can read (`gen_ready`); deeper, the position is legal.
pub fn number_of_moves(board_state: &mut BoardState, depth: u8) -> (r: u32)
    requires
        old(board_state).wf(),
        depth == 1 ==> gen_ready(old(board_state).board, old(board_state).state_info),
        depth >= 2 ==> searchable(*old(board_state), depth - 1),
    ensures
        restored(*old(board_state), *final(board_state)),
        r == perft_spec(old(board_state).board, old(board_state).state_info, depth as nat) % 0x1_0000_0000,
        depth == 1 ==> r == legal_moves(old(board_state).board, old(board_state).state_info).len(),
    decreases depth, 1int,
{
    if depth == 0 {
        return 1;
    }
    proof {
        if depth >= 2 {
            lemma_legal_ready(board_state.board, board_state.state_info);
        }
    }
    let moves = generate_moves(board_state, false);
    if depth == 1 {
        proof {
            let b = board_state.board;
            let si = board_state.state_info;
            lemma_distinct_moves_bound(moves@);
            moves@.unique_seq_to_set();
            assert(moves@.to_set() =~= legal_moves(b, si)) by {
                assert forall|m: Move| moves@.to_set().contains(m) implies gen_move(b, si, false, m) by {
                    let i = choose|i: int| 0 <= i < moves@.len() && moves@[i] == m;
                }
            }
            let g = perft_term(b, si, 1);
            lemma_perft_upto(b, si, 1, 0x10000);
            lemma_seq_sum_range(moves@, g, 0x10000);
            assert forall|i: int| 0 <= i < moves@.len() implies g(#[trigger] moves@[i]) == 1 by {
                assert(gen_move(b, si, false, moves@[i]));
            }
            lemma_seq_sum_ones(moves@, g);
        }
        return moves.len() as u32;
    }
    let ghost root = *board_state;
    let ghost g = perft_term(root.board, root.state_info, depth as nat);
    let mut move_number: u32 = 0;
    let mut i: usize = 0;
    proof {
        assert(moves@.take(0).len() == 0);
    }
    while i < moves.len()
        invariant
            searchable(root, depth - 1),
            depth >= 2,
            restored(root, *board_state),
            generated(root.board, root.state_info, false, moves@),
            i <= moves.len(),
            g == perft_term(root.board, root.state_info, depth as nat),
            move_number == seq_sum(moves@.take(i as int), g) % 0x1_0000_0000,
        decreases moves.len() - i,
    {
        let m = moves[i];
        let n = count_after(board_state, m, depth, Ghost(root));
        proof {
            assert(gen_move(root.board, root.state_info, false, m));
            assert(n == g(m) % 0x1_0000_0000);
            let prev = seq_sum(moves@.take(i as int), g);
            assert(moves@.take(i + 1).drop_last() =~= moves@.take(i as int));
            assert(seq_sum(moves@.take(i + 1), g) == prev + g(m));
            lemma_add_mod_noop(prev, g(m), 0x1_0000_0000);
        }
        move_number = move_number.wrapping_add(n);
        i = i + 1;
    }
    proof {
        assert(moves@.take(moves@.len() as int) =~= moves@);
        lemma_perft_upto(root.board, root.state_info, depth as nat, 0x10000);
        lemma_seq_sum_range(moves@, g, 0x10000);
    }
    move_number
}

/// Perft divided by the first move: for each legal move, in the order in which
/// `generate_moves` gives them, the move and the number of move sequences of length
/// `depth - 1` after it; with the total over all of them, which is `perft_spec` at
/// `depth`. Counts are taken modulo 2^32. The position is taken back to where it was
/// (see `restored`).
pub fn perft_devide(board_state: &mut BoardState, depth: u8) -> (r: (Vec<(Move, u32)>, u32))
    requires
        depth >= 1,
        searchable(*old(board_state), depth - 1),
    ensures
        restored(*old(board_state), *final(board_state)),
        r.0@.len() == legal_moves(old(board_state).board, old(board_state).state_info).len(),
        forall|i: int| 0 <= i < r.0@.len() ==> legal_moves(old(board_state).board, old(board_state).state_info).contains(
            (#[trigger] r.0@[i]).0,
        ),
        forall|m: Move| legal_moves(old(board_state).board, old(board_state).state_info).contains(m) ==> exists|i: int|
            0 <= i < r.0@.len() && (#[trigger] r.0@[i]).0 == m,
        forall|i: int, j: int| 0 <= i < j < r.0@.len() ==> (#[trigger] r.0@[i]).0 != (#[trigger] r.0@[j]).0,
        forall|i: int| 0 <= i < r.0@.len() ==> (#[trigger] r.0@[i]).1 == perft_spec(
            child_board(old(board_state).board, old(board_state).state_info, r.0@[i].0),
            state_after_move(old(board_state).board.cells(), old(board_state).state_info, r.0@[i].0),
            (depth - 1) as nat,
        ) % 0x1_0000_0000,
        r.1 == perft_spec(old(board_state).board, old(board_state).state_info, depth as nat) % 0x1_0000_0000,
{
    proof {
        lemma_legal_ready(board_state.board, board_state.state_info);
    }
    let moves = generate_moves(board_state, false);
    let ghost root = *board_state;
    let ghost g = perft_term(root.board, root.state_info, depth as nat);
    let mut out: Vec<(Move, u32)> = Vec::new();
    let mut total: u32 = 0;
    let mut i: usize = 0;
    proof {
        assert(moves@.take(0).len() == 0);
    }
    while i < moves.len()
        invariant
            searchable(root, depth - 1),
            depth >= 1,
            restored(root, *board_state),
            generated(root.board, root.state_info, false, moves@),
            i <= moves.len(),
            out@.len() == i,
            forall|k: int| 0 <= k < i ==> (#[trigger] out@[k]).0 == moves@[k] && out@[k].1 == g(moves@[k])
                % 0x1_0000_0000,
            g == perft_term(root.board, root.state_info, depth as nat),
            total == seq_sum(moves@.take(i as int), g) % 0x1_0000_0000,
        decreases moves.len() - i,
    {
        let m = moves[i];
        proof {
            assert(gen_move(root.board, root.state_info, false, m));
        }
        let n = if depth == 1 {
            1
        } else {
            count_after(board_state, m, depth, Ghost(root))
        };
        proof {
            assert(n == g(m) % 0x1_0000_0000);
            let prev = seq_sum(moves@.take(i as int), g);
            assert(moves@.take(i + 1).drop_last() =~= moves@.take(i as int));
            assert(seq_sum(moves@.take(i + 1), g) == prev + g(m));
            lemma_add_mod_noop(prev, g(m), 0x1_0000_0000);
        }
        out.push((m, n));
        total = total.wrapping_add(n);
        i = i + 1;
    }
    proof {
        let b = root.board;
        let si = root.state_info;
        assert(moves@.take(moves@.len() as int) =~= moves@);
        lemma_perft_upto(b, si, depth as nat, 0x10000);
        lemma_seq_sum_range(moves@, g, 0x10000);
        lemma_distinct_moves_bound(moves@);
        moves@.unique_seq_to_set();
        assert(moves@.to_set() =~= legal_moves(b, si)) by {
            assert forall|m: Move| moves@.to_set().contains(m) implies gen_move(b, si, false, m) by {
                let k = choose|k: int| 0 <= k < moves@.len() && moves@[k] == m;
            }
        }
        assert forall|m: Move| legal_moves(b, si).contains(m) implies exists|k: int|
            0 <= k < out@.len() && (#[trigger] out@[k]).0 == m by {
            assert(moves@.to_set().contains(m));
            let k = choose|k: int| 0 <= k < moves@.len() && moves@[k] == m;
            assert(out@[k].0 == m);
        }
        assert forall|k: int, l: int| 0 <= k < l < out@.len() implies (#[trigger] out@[k]).0 != (#[trigger] out@[l]).0 by {
            assert(out@[k].0 == moves@[k] && out@[l].0 == moves@[l]);
        }
        assert forall|k: int| 0 <= k < out@.len() implies legal_moves(b, si).contains((#[trigger] out@[k]).0) by {
            assert(out@[k].0 == moves@[k]);
            assert(gen_move(b, si, false, moves@[k]));
        }
    }
    (out, total)
}

} // verus!
