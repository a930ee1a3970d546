use vstd::prelude::*;
use crate::board::Cell;
use crate::board_state::{kind, BoardState};
use crate::eval::{BISHOP_VALUE, KNIGHT_VALUE, PAWN_VALUE, QUEEN_VALUE, ROOK_VALUE};
use crate::moves::{Move, MoveFlag};
use crate::piece::Piece;

verus! {

/// The value of a piece for ordering captures (the king counts 0).
pub open spec fn piece_value_spec(p: Piece) -> int {
    match p {
        Piece::Pawn => PAWN_VALUE as int,
        Piece::Knight => KNIGHT_VALUE as int,
        Piece::Bishop => BISHOP_VALUE as int,
        Piece::Rook => ROOK_VALUE as int,
        Piece::Queen => QUEEN_VALUE as int,
        Piece::King => 0,
    }
}

/// The value of a piece for ordering captures.
pub fn piece_value(p: Piece) -> (r: i32)
    ensures
        r == piece_value_spec(p),
{
    match p {
        Piece::Pawn => PAWN_VALUE,
        Piece::Knight => KNIGHT_VALUE,
        Piece::Bishop => BISHOP_VALUE,
        Piece::Rook => ROOK_VALUE,
        Piece::Queen => QUEEN_VALUE,
        Piece::King => 0,
    }
}

/// The squares a move reads are occupied as its flag says: its source, and the target
/// of a capture other than en passant.
pub open spec fn move_readable(cells: Seq<Cell>, m: Move) -> bool {
    &&& cells.len() == 64
    &&& cells[m.from_sq().0 as int] is Some
    &&& (m.has_valid_flag() && m.flag().spec_is_capture() && m.flag() != MoveFlag::EnPassant ==> cells[m.to_sq().0 as int] is Some)
    &&& m.has_valid_flag()
}

/// Most valuable victim, least valuable attacker: sixteen times the value of the piece
/// taken less that of the piece taking; 0 for moves that take nothing.
pub open spec fn mvv_lva_spec(cells: Seq<Cell>, m: Move) -> int {
    if !m.flag().spec_is_capture() {
        0
    } else {
        let attacker = kind(cells[m.from_sq().0 as int]);
        let victim = if m.flag() == MoveFlag::EnPassant {
            Piece::Pawn
        } else {
            kind(cells[m.to_sq().0 as int])
        };
        piece_value_spec(victim) * 16 - piece_value_spec(attacker)
    }
}

/// The capture-ordering score of a move (see `mvv_lva_spec`).
pub fn mvv_lva_score(board_state: &BoardState, mv: Move) -> (r: i32)
    requires
        board_state.board.wf(),
        move_readable(board_state.board.cells(), mv),
    ensures
        r == mvv_lva_spec(board_state.board.cells(), mv),
{
    let flags = mv.flags();
    if !flags.is_capture() {
        return 0;
    }
    let from = mv.source();
    proof {
        board_state.board.lemma_mailbox_cells(from.0 as int);
    }
    let attacker = board_state.board.get_piece_at(from);
    let victim = if flags == MoveFlag::EnPassant {
        Piece::Pawn
    } else {
        let to = mv.target();
        proof {
            board_state.board.lemma_mailbox_cells(to.0 as int);
        }
        board_state.board.get_piece_at(to)
    };
    piece_value(victim) * 16 - piece_value(attacker)
}

/// The ordering score of a move: captures by `mvv_lva_spec`, then the killer moves
/// (quiet moves that caused a cutoff at this distance from the root), then the rest.
pub open spec fn order_score(cells: Seq<Cell>, m: Move, killers: [Option<Move>; 2]) -> int {
    if m.flag().spec_is_capture() {
        mvv_lva_spec(cells, m)
    } else if killers[0] == Some(m) || killers[1] == Some(m) {
        1
    } else {
        0
    }
}

/// The value of the piece a capture takes: a pawn for en passant, else the piece on
/// the target square.
pub open spec fn victim_value(cells: Seq<Cell>, m: Move) -> int {
    if m.flag() == MoveFlag::EnPassant {
        PAWN_VALUE as int
    } else {
        piece_value_spec(kind(cells[m.to_sq().0 as int]))
    }
}

/// The value of the piece that moves.
pub open spec fn attacker_value(cells: Seq<Cell>, m: Move) -> int {
    piece_value_spec(kind(cells[m.from_sq().0 as int]))
}

/// Law: captures are ordered most valuable victim first, least valuable attacker first
/// (MVV-LVA). For the same attacker a more valuable victim scores higher; for victims of
/// the same value a less valuable attacker scores higher; a victim worth at least a pawn
/// more outranks any difference of attackers; and taking anything but a king scores above
/// every killer and quiet move.
pub proof fn law_mvv_lva(cells: Seq<Cell>, m1: Move, m2: Move, quiet: Move, killers: [Option<Move>; 2])
    requires
        m1.flag().spec_is_capture(),
        m2.flag().spec_is_capture(),
        !quiet.flag().spec_is_capture(),
    ensures
        attacker_value(cells, m1) == attacker_value(cells, m2) && victim_value(cells, m1) > victim_value(cells, m2)
            ==> order_score(cells, m1, killers) > order_score(cells, m2, killers),
        victim_value(cells, m1) == victim_value(cells, m2) && attacker_value(cells, m1) < attacker_value(cells, m2)
            ==> order_score(cells, m1, killers) > order_score(cells, m2, killers),
        victim_value(cells, m1) >= victim_value(cells, m2) + PAWN_VALUE ==> order_score(cells, m1, killers)
            > order_score(cells, m2, killers),
        victim_value(cells, m1) >= PAWN_VALUE ==> order_score(cells, m1, killers) > order_score(cells, quiet, killers),
{
}

/// Swapping two entries keeps the multiset of a sequence.
proof fn lemma_swap_multiset<A>(s: Seq<A>, i: int, j: int)
    requires
        0 <= i < s.len(),
        0 <= j < s.len(),
    ensures
        s.update(i, s[j]).update(j, s[i]).to_multiset() =~= s.to_multiset(),
{
    broadcast use vstd::seq_lib::group_to_multiset_ensures;
    vstd::seq_lib::to_multiset_update(s, i, s[j]);
    let s1 = s.update(i, s[j]);
    vstd::seq_lib::to_multiset_update(s1, j, s[i]);
    if i != j {
        assert(s1[j] == s[j]);
    }
}

/// The list `fin` is `orig` with the entry at `pos` swapped to the front, its entries
/// then rearranged by `perm` (`fin[k]` is entry `perm[k]` of the swapped list) so that
/// from `start` on, moves of equal score keep their order (a stable sort).
pub open spec fn stable_order(
    orig: Seq<Move>,
    fin: Seq<Move>,
    start: int,
    pos: int,
    perm: Seq<int>,
    cells: Seq<Cell>,
    killers: [Option<Move>; 2],
) -> bool {
    let swapped = orig.update(0, orig[pos]).update(pos, orig[0]);
    &&& (start == 0 ==> pos == 0)
    &&& 0 <= pos < orig.len() || orig.len() == 0
    &&& perm.len() == fin.len()
    &&& fin.len() == orig.len()
    &&& (forall|k: int| 0 <= k < perm.len() ==> 0 <= #[trigger] perm[k] < perm.len())
    &&& (forall|a: int, b: int| 0 <= a < perm.len() && 0 <= b < perm.len() && a != b ==> #[trigger] perm[a] != #[trigger] perm[b])
    &&& (forall|k: int| 0 <= k < fin.len() ==> #[trigger] fin[k] == swapped[perm[k]])
    &&& (start == 1 ==> perm[0] == 0)
    &&& (forall|a: int, b: int|
        start <= a < b < fin.len() && order_score(cells, #[trigger] fin[a], killers) == order_score(
            cells,
            #[trigger] fin[b],
            killers,
        ) ==> perm[a] < perm[b])
}

/// `fin` is what ordering makes of `orig`: the first occurrence of the table move `tt`,
/// when `orig` holds it, swapped to the front, and the moves after it stably sorted (see
/// `stable_order`).
pub open spec fn sorted_from(orig: Seq<Move>, fin: Seq<Move>, tt: Option<Move>, cells: Seq<Cell>, killers: [Option<Move>; 2]) -> bool {
    sorted_from_at(orig, fin, tt, if tt matches Some(t) && orig.contains(t) { 1 } else { 0 }, cells, killers)
}

/// `sorted_from` with the first sorted index `start` given.
pub open spec fn sorted_from_at(orig: Seq<Move>, fin: Seq<Move>, tt: Option<Move>, start: int, cells: Seq<Cell>, killers: [Option<Move>; 2]) -> bool {
    exists|pos: int, perm: Seq<int>|
        #[trigger] stable_order(orig, fin, start, pos, perm, cells, killers) && (start == 1 ==> (tt matches Some(t)
            && orig[pos] == t && forall|j: int| 0 <= j < pos ==> orig[j] != t))
}

/// Puts the table move first when the list holds it (swapping it with the first move),
/// then sorts the other moves by descending `order_score`, moves of equal score keeping
/// their order.
pub fn order_moves(board_state: &BoardState, moves: &mut Vec<Move>, tt_move: Option<Move>, killers: [Option<Move>; 2])
    requires
        board_state.board.wf(),
        forall|i: int| 0 <= i < old(moves)@.len() ==> move_readable(board_state.board.cells(), #[trigger] old(moves)@[i]),
    ensures
        final(moves)@.to_multiset() == old(moves)@.to_multiset(),
        ({
            let start: int = if tt_move matches Some(t) && old(moves)@.contains(t) { 1 } else { 0 };
            &&& (tt_move matches Some(t) ==> (old(moves)@.contains(t) ==> final(moves)@[0] == t))
            &&& forall|a: int, b: int|
                start <= a < b < final(moves)@.len() ==> order_score(board_state.board.cells(), #[trigger] final(moves)@[a], killers)
                    >= order_score(board_state.board.cells(), #[trigger] final(moves)@[b], killers)
        }),
        sorted_from(old(moves)@, final(moves)@, tt_move, board_state.board.cells(), killers),
{
    let ghost cells = board_state.board.cells();
    let ghost orig = moves@;
    let ghost mut tpos: int = 0;
    let mut start: usize = 0;
    if let Some(mh) = tt_move {
        let mut pos: usize = 0;
        let mut found = false;
        while pos < moves.len() && !found
            invariant
                moves@ == orig,
                pos <= moves@.len(),
                found ==> pos < moves@.len() && moves@[pos as int] == mh,
                forall|k: int| 0 <= k < pos ==> moves@[k] != mh,
            decreases moves.len() - pos + if found { 0int } else { 1int },
        {
            if moves[pos] == mh {
                found = true;
            } else {
                pos = pos + 1;
            }
        }
        if found {
            let first = moves[0];
            let chosen = moves[pos];
            moves.set(0, chosen);
            moves.set(pos, first);
            proof {
                lemma_swap_multiset(orig, 0, pos as int);
                assert(moves@ == orig.update(0, orig[pos as int]).update(pos as int, orig[0]));
                assert(orig.contains(mh));
                tpos = pos as int;
            }
            start = 1;
        } else {
            proof {
                assert(!orig.contains(mh));
            }
        }
    }
    let ghost after_tt = moves@;
    proof {
        if start == 0 && orig.len() > 0 {
            assert(orig.update(0, orig[0]) =~= orig);
            assert(after_tt =~= orig.update(0, orig[0]).update(0, orig[0]));
        }
        assert(start == 1 ==> (tt_move matches Some(t) && orig[tpos] == t && forall|j: int| 0 <= j < tpos ==> orig[j] != t));
    }
    let mut scores: Vec<i32> = Vec::new();
    let mut k: usize = 0;
    while k < moves.len()
        invariant
            moves@ == after_tt,
            after_tt.to_multiset() == orig.to_multiset(),
            board_state.board.wf(),
            cells == board_state.board.cells(),
            forall|i: int| 0 <= i < after_tt.len() ==> move_readable(cells, #[trigger] after_tt[i]),
            k <= moves@.len(),
            scores@.len() == k,
            forall|i: int| 0 <= i < k ==> scores@[i] == order_score(cells, #[trigger] moves@[i], killers),
        decreases moves.len() - k,
    {
        let m = moves[k];
        let flags = m.flags();
        let sc = if flags.is_capture() {
            mvv_lva_score(board_state, m)
        } else if killers[0] == Some(m) || killers[1] == Some(m) {
            1
        } else {
            0
        };
        scores.push(sc);
        k = k + 1;
    }
    let n = moves.len();
    let ghost mut perm: Seq<int> = Seq::new(n as nat, |x: int| x);
    proof {
        assert(start == 1 ==> after_tt.len() >= 1);
    }
    let mut i: usize = start;
    while i < n
        invariant
            n == moves@.len(),
            n == after_tt.len(),
            scores@.len() == n,
            forall|x: int| 0 <= x < n ==> scores@[x] == order_score(cells, #[trigger] moves@[x], killers),
            moves@.to_multiset() == orig.to_multiset(),
            start <= 1,
            start <= i <= n || (i == start && n == 0),
            start == 1 ==> n >= 1 && moves@[0] == after_tt[0],
            forall|a: int, b: int| start <= a < b < i ==> #[trigger] scores@[a] >= #[trigger] scores@[b],
            perm.len() == n,
            forall|x: int| 0 <= x < n ==> 0 <= #[trigger] perm[x] < n,
            forall|a: int, b: int| 0 <= a < n && 0 <= b < n && a != b ==> #[trigger] perm[a] != #[trigger] perm[b],
            forall|x: int| 0 <= x < n ==> #[trigger] moves@[x] == after_tt[perm[x]],
            forall|x: int| (x < start || i <= x) && 0 <= x < n ==> #[trigger] perm[x] == x,
            forall|x: int| start <= x < i ==> #[trigger] perm[x] < i,
            forall|a: int, b: int| start <= a < b < i && #[trigger] scores@[a] == #[trigger] scores@[b] ==> perm[a] < perm[b],
        decreases n - i,
    {
        let mut j: usize = i;
        while j > start && scores[j - 1] < scores[j]
            invariant
                n == moves@.len(),
                n == after_tt.len(),
                scores@.len() == n,
                forall|x: int| 0 <= x < n ==> scores@[x] == order_score(cells, #[trigger] moves@[x], killers),
                moves@.to_multiset() == orig.to_multiset(),
                start <= 1,
                start <= j <= i < n,
                start == 1 ==> moves@[0] == after_tt[0],
                forall|a: int, b: int| start <= a < b <= i && a != j && b != j ==> #[trigger] scores@[a] >= #[trigger] scores@[b],
                forall|b: int| j < b <= i ==> #[trigger] scores@[b] < scores@[j as int],
                perm.len() == n,
                forall|x: int| 0 <= x < n ==> 0 <= #[trigger] perm[x] < n,
                forall|a: int, b: int| 0 <= a < n && 0 <= b < n && a != b ==> #[trigger] perm[a] != #[trigger] perm[b],
                forall|x: int| 0 <= x < n ==> #[trigger] moves@[x] == after_tt[perm[x]],
                forall|x: int| (x < start || i < x) && 0 <= x < n ==> #[trigger] perm[x] == x,
                perm[j as int] == i,
                forall|x: int| start <= x <= i && x != j ==> #[trigger] perm[x] < i,
                forall|a: int, b: int|
                    start <= a < b <= i && a != j && b != j && #[trigger] scores@[a] == #[trigger] scores@[b] ==> perm[a] < perm[b],
            decreases j,
        {
            let ghost m0 = moves@;
            let ghost s0 = scores@;
            let ghost p0 = perm;
            let mv_a = moves[j - 1];
            let mv_b = moves[j];
            moves.set(j - 1, mv_b);
            moves.set(j, mv_a);
            let sc_a = scores[j - 1];
            let sc_b = scores[j];
            scores.set(j - 1, sc_b);
            scores.set(j, sc_a);
            proof {
                lemma_swap_multiset(m0, j - 1, j as int);
                assert(moves@ == m0.update(j - 1, m0[j as int]).update(j as int, m0[j - 1]));
                perm = p0.update(j - 1, p0[j as int]).update(j as int, p0[j - 1]);
            }
            j = j - 1;
        }
        i = i + 1;
    }
    proof {
        let sp: int = if tt_move matches Some(t) && orig.contains(t) { 1 } else { 0 };
        assert(stable_order(orig, moves@, sp, tpos, perm, cells, killers) && (sp == 1 ==> (tt_move matches Some(t)
            && orig[tpos] == t && forall|j: int| 0 <= j < tpos ==> orig[j] != t)));
        assert(sorted_from_at(orig, moves@, tt_move, sp, cells, killers));
        assert(sorted_from(orig, moves@, tt_move, cells, killers));
    }
}

} // verus!
