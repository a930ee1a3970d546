use vstd::prelude::*;
use crate::bits::{
    bb_sum, bit, count_ones, lemma_bb_sum_bounds, lemma_bb_sum_pop, lemma_bb_sum_zero,
    lemma_bit_ops, lemma_pop_lsb, popcount,
};
use crate::board::Board;
use crate::movegen::pop_lsb;
use crate::piece::{Color, Piece};

verus! {

/// Value of a pawn, in centipawns.
pub const PAWN_VALUE: i32 = 100;

/// Value of a knight.
pub const KNIGHT_VALUE: i32 = 315;

/// Value of a bishop.
pub const BISHOP_VALUE: i32 = 330;

/// Value of a rook.
pub const ROOK_VALUE: i32 = 500;

/// Value of a queen.
pub const QUEEN_VALUE: i32 = 900;

/// Game-phase weight of a knight.
pub const KNIGHT_PHASE: i32 = 1;

/// Game-phase weight of a bishop.
pub const BISHOP_PHASE: i32 = 1;

/// Game-phase weight of a rook.
pub const ROOK_PHASE: i32 = 2;

/// Game-phase weight of a queen.
pub const QUEEN_PHASE: i32 = 4;

/// The phase of the starting material: four knights, bishops and rooks, two queens.
pub const TOTAL_PHASE: i32 = 24;

/// Penalty for each file holding two or more pawns of one side.
pub const DOUBLE_PAWN_VALUE: i32 = -40;

/// Bonus for holding both bishops.
pub const BISHOP_PAIR_VALUE: i32 = 30;

/// The largest size of a table entry that the evaluation accepts.
pub const PST_LIMIT: i32 = 10000;

/// Piece-square tables, indexed by square as White sees the board: a bonus for a piece
/// standing on each square; pawns and the king have a middlegame and an endgame table.
pub struct PieceSquareTables {
    pub knight: [i32; 64],
    pub bishop: [i32; 64],
    pub rook: [i32; 64],
    pub queen: [i32; 64],
    pub pawn_mg: [i32; 64],
    pub pawn_eg: [i32; 64],
    pub king_mg: [i32; 64],
    pub king_eg: [i32; 64],
}

/// Every entry of `t` lies within `PST_LIMIT` of zero.
pub open spec fn table_ok(t: Seq<i32>) -> bool {
    t.len() == 64 && forall|i: int| 0 <= i < 64 ==> -PST_LIMIT <= #[trigger] t[i] <= PST_LIMIT
}

impl PieceSquareTables {
    /// Every table's entries lie within `PST_LIMIT` of zero.
    pub open spec fn bounded(&self) -> bool {
        &&& table_ok(self.knight@)
        &&& table_ok(self.bishop@)
        &&& table_ok(self.rook@)
        &&& table_ok(self.queen@)
        &&& table_ok(self.pawn_mg@)
        &&& table_ok(self.pawn_eg@)
        &&& table_ok(self.king_mg@)
        &&& table_ok(self.king_eg@)
    }

    /// Tables with no positional bonus anywhere.
    pub fn flat() -> (t: PieceSquareTables)
        ensures
            t.bounded(),
            forall|i: int| 0 <= i < 64 ==> t.knight@[i] == 0 && t.bishop@[i] == 0 && t.rook@[i] == 0
                && t.queen@[i] == 0 && t.pawn_mg@[i] == 0 && t.pawn_eg@[i] == 0 && t.king_mg@[i] == 0
                && t.king_eg@[i] == 0,
    {
        PieceSquareTables {
            knight: [0i32; 64],
            bishop: [0i32; 64],
            rook: [0i32; 64],
            queen: [0i32; 64],
            pawn_mg: [0i32; 64],
            pawn_eg: [0i32; 64],
            king_mg: [0i32; 64],
            king_eg: [0i32; 64],
        }
    }
}

/// The square `s` as the side `c` sees the board: ranks are turned round for Black.
pub open spec fn mirror(c: Color, s: int) -> int {
    match c {
        Color::White => s,
        Color::Black => 8 * (7 - s / 8) + s % 8,
    }
}

/// The table bonus and the piece value of a piece of colour `c` on each square.
pub open spec fn pst_weight(table: Seq<i32>, c: Color, value: int) -> spec_fn(int) -> int {
    |s: int| table[mirror(c, s)] + value
}

/// Sums the table entries (seen by `c`) plus `value` over the squares of `bb`.
fn table_sum(bb: u64, table: &[i32; 64], c: Color, value: i32) -> (r: i32)
    requires
        table_ok(table@),
        -1000 <= value <= 1000,
    ensures
        r == bb_sum(bb, pst_weight(table@, c, value as int), 64),
        -64 * 11000 <= r <= 64 * 11000,
{
    let ghost w = pst_weight(table@, c, value as int);
    proof {
        assert forall|i: int| 0 <= i < 64 implies -11000 <= #[trigger] w(i) <= 11000 by {
            assert(0 <= mirror(c, i) < 64);
        }
        lemma_bb_sum_bounds(bb, w, 64, -11000, 11000);
    }
    let mut rest = bb;
    let mut sum: i32 = 0;
    while rest != 0
        invariant
            w == pst_weight(table@, c, value as int),
            table_ok(table@),
            -1000 <= value <= 1000,
            forall|i: int| 0 <= i < 64 ==> -11000 <= #[trigger] w(i) <= 11000,
            sum + bb_sum(rest, w, 64) == bb_sum(bb, w, 64),
            -64 * 11000 <= bb_sum(bb, w, 64) <= 64 * 11000,
            -64 * 11000 <= bb_sum(rest, w, 64) <= 64 * 11000,
        decreases rest,
    {
        let ghost r0 = rest;
        proof {
            lemma_bb_sum_pop(rest, w);
            lemma_pop_lsb(rest);
            lemma_bb_sum_bounds(rest & ((rest - 1) as u64), w, 64, -11000, 11000);
        }
        let sq = pop_lsb(&mut rest);
        let idx: usize = match c {
            Color::White => sq.ind(),
            Color::Black => ((7 - sq.rank()) * 8 + sq.file()) as usize,
        };
        proof {
            assert(rest == r0 & ((r0 - 1) as u64)) by {
                assert forall|i: u64| i < 64 implies #[trigger] bit(rest, i) == bit(r0 & ((r0 - 1) as u64), i) by {}
                crate::bits::lemma_bit_ext(rest, r0 & ((r0 - 1) as u64));
            }
            assert(sq.0 == vstd::std_specs::bits::u64_trailing_zeros(r0));
            assert(idx == mirror(c, sq.0 as int));
        }
        sum = sum + table[idx] + value;
    }
    proof {
        lemma_bb_sum_zero(w, 64);
    }
    sum
}

/// Table bonuses plus values of the knights, bishops, rooks and queens of colour `c`.
pub open spec fn count_pst_spec(b: Board, c: Color, t: PieceSquareTables) -> int {
    bb_sum(b.piece_bb(c, Piece::Knight), pst_weight(t.knight@, c, KNIGHT_VALUE as int), 64) + bb_sum(
        b.piece_bb(c, Piece::Bishop),
        pst_weight(t.bishop@, c, BISHOP_VALUE as int),
        64,
    ) + bb_sum(b.piece_bb(c, Piece::Rook), pst_weight(t.rook@, c, ROOK_VALUE as int), 64) + bb_sum(
        b.piece_bb(c, Piece::Queen),
        pst_weight(t.queen@, c, QUEEN_VALUE as int),
        64,
    )
}

/// Sums the table bonuses and values of the knights, bishops, rooks and queens of `c`.
pub fn count_pst(board: &Board, c: Color, tables: &PieceSquareTables) -> (r: i32)
    requires
        tables.bounded(),
    ensures
        r == count_pst_spec(*board, c, *tables),
        -4 * 64 * 11000 <= r <= 4 * 64 * 11000,
{
    let n = table_sum(board.get_piece_bitboard(c, Piece::Knight), &tables.knight, c, KNIGHT_VALUE);
    let b = table_sum(board.get_piece_bitboard(c, Piece::Bishop), &tables.bishop, c, BISHOP_VALUE);
    let r = table_sum(board.get_piece_bitboard(c, Piece::Rook), &tables.rook, c, ROOK_VALUE);
    let q = table_sum(board.get_piece_bitboard(c, Piece::Queen), &tables.queen, c, QUEEN_VALUE);
    n + b + r + q
}

/// Division rounding towards zero, as Rust's integer division does.
pub open spec fn trunc_div(x: int, d: int) -> int {
    if x >= 0 {
        x / d
    } else {
        -((-x) / d)
    }
}

/// The middlegame score of the pawns and king of `c` (tables plus pawn values).
pub open spec fn mg_spec(b: Board, c: Color, t: PieceSquareTables) -> int {
    bb_sum(b.piece_bb(c, Piece::Pawn), pst_weight(t.pawn_mg@, c, PAWN_VALUE as int), 64) + bb_sum(
        b.piece_bb(c, Piece::King),
        pst_weight(t.king_mg@, c, 0),
        64,
    )
}

/// The endgame score of the pawns and king of `c`.
pub open spec fn eg_spec(b: Board, c: Color, t: PieceSquareTables) -> int {
    bb_sum(b.piece_bb(c, Piece::Pawn), pst_weight(t.pawn_eg@, c, PAWN_VALUE as int), 64) + bb_sum(
        b.piece_bb(c, Piece::King),
        pst_weight(t.king_eg@, c, 0),
        64,
    )
}

/// The pawn and king score of `c`, blended from middlegame to endgame by the phase.
pub open spec fn count_pst_phase_spec(b: Board, c: Color, t: PieceSquareTables, phase: int) -> int {
    trunc_div(mg_spec(b, c, t) * phase + eg_spec(b, c, t) * (TOTAL_PHASE - phase), TOTAL_PHASE as int)
}

/// Blends the middlegame and endgame tables of the pawns and king of `c` by `phase`.
pub fn count_pst_phase(board: &Board, c: Color, tables: &PieceSquareTables, phase: i32) -> (r: i32)
    requires
        tables.bounded(),
        0 <= phase <= TOTAL_PHASE,
    ensures
        r == count_pst_phase_spec(*board, c, *tables, phase as int),
        -2 * 64 * 11000 <= r <= 2 * 64 * 11000,
{
    let pawns = board.get_piece_bitboard(c, Piece::Pawn);
    let kings = board.get_piece_bitboard(c, Piece::King);
    let mg_score = table_sum(pawns, &tables.pawn_mg, c, PAWN_VALUE) + table_sum(kings, &tables.king_mg, c, 0);
    let eg_score = table_sum(pawns, &tables.pawn_eg, c, PAWN_VALUE) + table_sum(kings, &tables.king_eg, c, 0);
    proof {
        assert(-2 * 64 * 11000 * 24 <= mg_score * phase <= 2 * 64 * 11000 * 24) by (nonlinear_arith)
            requires
                -2 * 64 * 11000 <= mg_score <= 2 * 64 * 11000,
                0 <= phase <= 24,
        ;
        assert(-2 * 64 * 11000 * 24 <= eg_score * (24 - phase) <= 2 * 64 * 11000 * 24) by (nonlinear_arith)
            requires
                -2 * 64 * 11000 <= eg_score <= 2 * 64 * 11000,
                0 <= phase <= 24,
        ;
    }
    let blended = mg_score * phase + eg_score * (TOTAL_PHASE - phase);
    proof {
        assert(-2 * 64 * 11000 * 24 <= mg_score * phase + eg_score * (24 - phase) <= 2 * 64 * 11000 * 24) by (nonlinear_arith)
            requires
                -2 * 64 * 11000 <= mg_score <= 2 * 64 * 11000,
                -2 * 64 * 11000 <= eg_score <= 2 * 64 * 11000,
                0 <= phase <= 24,
        ;
    }
    if blended >= 0 {
        blended / TOTAL_PHASE
    } else {
        -((-blended) / TOTAL_PHASE)
    }
}

/// The phase weights of the knights, bishops, rooks and queens of `c`.
pub open spec fn phase_of(b: Board, c: Color) -> int {
    popcount(b.piece_bb(c, Piece::Knight)) * KNIGHT_PHASE + popcount(b.piece_bb(c, Piece::Bishop))
        * BISHOP_PHASE + popcount(b.piece_bb(c, Piece::Rook)) * ROOK_PHASE + popcount(
        b.piece_bb(c, Piece::Queen),
    ) * QUEEN_PHASE
}

/// The game phase: the phase weights of both sides' pieces, capped at `TOTAL_PHASE`
/// (0 is a bare endgame, `TOTAL_PHASE` the full starting material).
pub open spec fn game_phase_spec(b: Board) -> int {
    let raw = phase_of(b, Color::White) + phase_of(b, Color::Black);
    if raw < TOTAL_PHASE {
        raw
    } else {
        TOTAL_PHASE as int
    }
}

/// Computes the game phase (see `game_phase_spec`).
pub fn game_phase(board: &Board) -> (r: i32)
    ensures
        r == game_phase_spec(*board),
        0 <= r <= TOTAL_PHASE,
{
    let wn = count_ones(board.get_piece_bitboard(Color::White, Piece::Knight)) as i32;
    let wb = count_ones(board.get_piece_bitboard(Color::White, Piece::Bishop)) as i32;
    let wr = count_ones(board.get_piece_bitboard(Color::White, Piece::Rook)) as i32;
    let wq = count_ones(board.get_piece_bitboard(Color::White, Piece::Queen)) as i32;
    let bn = count_ones(board.get_piece_bitboard(Color::Black, Piece::Knight)) as i32;
    let bb = count_ones(board.get_piece_bitboard(Color::Black, Piece::Bishop)) as i32;
    let br = count_ones(board.get_piece_bitboard(Color::Black, Piece::Rook)) as i32;
    let bq = count_ones(board.get_piece_bitboard(Color::Black, Piece::Queen)) as i32;
    let phase = (wn * KNIGHT_PHASE + wb * BISHOP_PHASE + wr * ROOK_PHASE + wq * QUEEN_PHASE) + (bn
        * KNIGHT_PHASE + bb * BISHOP_PHASE + br * ROOK_PHASE + bq * QUEEN_PHASE);
    if phase < TOTAL_PHASE {
        phase
    } else {
        TOTAL_PHASE
    }
}

/// The bishop-pair bonus of `c`: two bishops or more.
pub open spec fn bishop_pair_spec(b: Board, c: Color) -> int {
    if popcount(b.piece_bb(c, Piece::Bishop)) >= 2 {
        BISHOP_PAIR_VALUE as int
    } else {
        0
    }
}

/// The bishop-pair bonus of `c`.
pub fn bishop_pair(board: &Board, color: Color) -> (r: i32)
    ensures
        r == bishop_pair_spec(*board, color),
{
    if count_ones(board.get_piece_bitboard(color, Piece::Bishop)) >= 2 {
        BISHOP_PAIR_VALUE
    } else {
        0
    }
}

/// The bonus of a passed pawn that has advanced `advance` ranks from its side's first
/// rank.
pub open spec fn passed_bonus_spec(advance: int) -> int {
    if advance == 1 {
        5
    } else if advance == 2 {
        10
    } else if advance == 3 {
        20
    } else if advance == 4 {
        35
    } else if advance == 5 {
        60
    } else if advance == 6 {
        100
    } else {
        0
    }
}

/// The bonus of a passed pawn by how far it has advanced.
pub fn passed_pawn_bonus(advance: u8) -> (r: i32)
    ensures
        r == passed_bonus_spec(advance as int),
{
    match advance {
        1 => 5,
        2 => 10,
        3 => 20,
        4 => 35,
        5 => 60,
        6 => 100,
        _ => 0,
    }
}

/// `t` lies on the file of `s` or a neighbouring one, on a rank ahead of `s` for a pawn
/// of colour `c`.
pub open spec fn in_front(c: Color, s: int, t: int) -> bool {
    let df = t % 8 - s % 8;
    &&& -1 <= df <= 1
    &&& match c {
        Color::White => t / 8 > s / 8,
        Color::Black => t / 8 < s / 8,
    }
}

proof fn lemma_file_band(f: u64, b0: u64, b1: u64, band: u64)
    requires
        f < 8,
        b0 == crate::pawn_batch::FILE_A << f,
        b1 == if f > 0 { b0 | (crate::pawn_batch::FILE_A << ((f - 1) as u64)) } else { b0 },
        band == if f < 7 { b1 | (crate::pawn_batch::FILE_A << ((f + 1) as u64)) } else { b1 },
    ensures
        forall|t: u64| t < 64 ==> (#[trigger] bit(band, t) <==> -1 <= t % 8 - f <= 1),
{
    assert forall|t: u64| t < 64 implies (#[trigger] bit(band, t) <==> -1 <= t % 8 - f <= 1) by {
        crate::bits::lemma_shift_bits(crate::pawn_batch::FILE_A, f, t);
        if t >= f {
            crate::pawn_batch::lemma_masks((t - f) as u64);
        }
        if f > 0 {
            crate::bits::lemma_shift_bits(crate::pawn_batch::FILE_A, (f - 1) as u64, t);
            lemma_bit_ops(b0, crate::pawn_batch::FILE_A << ((f - 1) as u64), t);
            if t >= f - 1 {
                crate::pawn_batch::lemma_masks((t - (f - 1)) as u64);
            }
        }
        if f < 7 {
            crate::bits::lemma_shift_bits(crate::pawn_batch::FILE_A, (f + 1) as u64, t);
            lemma_bit_ops(b1, crate::pawn_batch::FILE_A << ((f + 1) as u64), t);
            if t >= f + 1 {
                crate::pawn_batch::lemma_masks((t - (f + 1)) as u64);
            }
        }
    }
}

proof fn lemma_ahead(rank: u64, color: Color, ahead: u64)
    requires
        color == Color::White ==> rank < 7 && ahead == 0xFFFF_FFFF_FFFF_FFFFu64 << ((rank + 1) * 8) as u64,
        color == Color::Black ==> 1 <= rank < 8 && ahead == 0xFFFF_FFFF_FFFF_FFFFu64 >> ((8 - rank) * 8) as u64,
    ensures
        forall|t: u64| t < 64 ==> (#[trigger] bit(ahead, t) <==> match color {
            Color::White => t / 8 > rank,
            Color::Black => t / 8 < rank,
        }),
{
    assert forall|t: u64| t < 64 implies (#[trigger] bit(ahead, t) <==> match color {
        Color::White => t / 8 > rank,
        Color::Black => t / 8 < rank,
    }) by {
        match color {
            Color::White => {
                let k = ((rank + 1) * 8) as u64;
                crate::bits::lemma_shift_bits(0xFFFF_FFFF_FFFF_FFFFu64, k, t);
                if t >= k {
                    lemma_bit_ops(0u64, 0u64, (t - k) as u64);
                }
            },
            Color::Black => {
                let k = ((8 - rank) * 8) as u64;
                crate::bits::lemma_shift_bits(0xFFFF_FFFF_FFFF_FFFFu64, k, t);
                if t + k < 64 {
                    lemma_bit_ops(0u64, 0u64, (t + k) as u64);
                }
            },
        }
    }
}

/// The squares an enemy pawn could stand on to stop the pawn of colour `c` on `sq` from
/// being passed: its file and both neighbours, on every rank ahead of it.
pub fn passed_pawn_mask(sq: crate::square::Sq64, color: Color) -> (r: u64)
    requires
        sq.valid(),
        color == Color::White ==> sq.0 < 56,
        color == Color::Black ==> sq.0 >= 8,
    ensures
        forall|t: u64| t < 64 ==> (#[trigger] bit(r, t) <==> in_front(color, sq.0 as int, t as int)),
{
    let file = sq.file();
    let mut file_band = crate::pawn_batch::FILE_A << file;
    let ghost b0 = file_band;
    if file > 0 {
        file_band = file_band | (crate::pawn_batch::FILE_A << (file - 1));
    }
    let ghost b1 = file_band;
    if file < 7 {
        file_band = file_band | (crate::pawn_batch::FILE_A << (file + 1));
    }
    let rank = sq.rank();
    let ahead_ranks = match color {
        Color::White => 0xFFFF_FFFF_FFFF_FFFFu64 << ((rank + 1) * 8),
        Color::Black => 0xFFFF_FFFF_FFFF_FFFFu64 >> ((8 - rank) * 8),
    };
    proof {
        lemma_file_band(file as u64, b0, b1, file_band);
        lemma_ahead(rank as u64, color, ahead_ranks);
        assert forall|t: u64| t < 64 implies (#[trigger] bit(file_band & ahead_ranks, t) <==> in_front(color, sq.0 as int, t as int)) by {
            lemma_bit_ops(file_band, ahead_ranks, t);
        }
    }
    file_band & ahead_ranks
}

/// No enemy pawn stands in front of the square `s` (see `in_front`) for colour `c`.
pub open spec fn passed(b: Board, c: Color, s: int) -> bool {
    forall|t: int|
        0 <= t < 64 && #[trigger] b.cells()[t] == Some((c.opposite(), Piece::Pawn)) ==> !in_front(c, s, t)
}

/// How many ranks a pawn of colour `c` on `s` has advanced from its side's first rank.
pub open spec fn advance(c: Color, s: int) -> int {
    match c {
        Color::White => s / 8,
        Color::Black => 7 - s / 8,
    }
}

/// The passed-pawn bonus of a pawn of colour `c` on each square.
pub open spec fn passed_weight(b: Board, c: Color) -> spec_fn(int) -> int {
    |s: int| if passed(b, c, s) { passed_bonus_spec(advance(c, s)) } else { 0 }
}

/// The passed-pawn bonuses of the pawns of `c`.
pub open spec fn passed_pawns_spec(b: Board, c: Color) -> int {
    bb_sum(b.piece_bb(c, Piece::Pawn), passed_weight(b, c), 64)
}

/// Sums the bonuses of the passed pawns of `color`.
pub fn score_past_pawns(board: &Board, color: Color) -> (r: i32)
    requires
        board.wf(),
        crate::position::pawns_inside(board.cells()),
    ensures
        r == passed_pawns_spec(*board, color),
        0 <= r <= 6400,
{
    let ghost w = passed_weight(*board, color);
    let pawns = board.get_piece_bitboard(color, Piece::Pawn);
    let op_pawn_bb = board.get_piece_bitboard(color.flip(), Piece::Pawn);
    proof {
        assert forall|i: int| 0 <= i < 64 implies 0 <= #[trigger] w(i) <= 100 by {}
        lemma_bb_sum_bounds(pawns, w, 64, 0, 100);
    }
    let mut rest = pawns;
    let mut score: i32 = 0;
    while rest != 0
        invariant
            board.wf(),
            crate::position::pawns_inside(board.cells()),
            w == passed_weight(*board, color),
            op_pawn_bb == board.piece_bb(color.opposite(), Piece::Pawn),
            forall|i: int| 0 <= i < 64 ==> 0 <= #[trigger] w(i) <= 100,
            forall|i: u64| i < 64 && #[trigger] bit(rest, i) ==> bit(pawns, i),
            pawns == board.piece_bb(color, Piece::Pawn),
            score + bb_sum(rest, w, 64) == bb_sum(pawns, w, 64),
            0 <= bb_sum(pawns, w, 64) <= 6400,
            0 <= bb_sum(rest, w, 64) <= 6400,
        decreases rest,
    {
        let ghost r0 = rest;
        proof {
            lemma_bb_sum_pop(rest, w);
            lemma_pop_lsb(rest);
            lemma_bb_sum_bounds(rest & ((rest - 1) as u64), w, 64, 0, 100);
        }
        let sq = pop_lsb(&mut rest);
        proof {
            assert(rest == r0 & ((r0 - 1) as u64)) by {
                assert forall|i: u64| i < 64 implies #[trigger] bit(rest, i) == bit(r0 & ((r0 - 1) as u64), i) by {}
                crate::bits::lemma_bit_ext(rest, r0 & ((r0 - 1) as u64));
            }
            assert(bit(pawns, sq.0 as u64));
            assert(board.cells()[sq.0 as int] == Some((color, Piece::Pawn)));
        }
        let mask = passed_pawn_mask(sq, color);
        let blockers = op_pawn_bb & mask;
        proof {
            let s0 = sq.0 as int;
            crate::bits::lemma_and_nonzero(op_pawn_bb, mask);
            if blockers != 0 {
                let t = choose|i: u64| i < 64 && #[trigger] bit(op_pawn_bb & mask, i);
                lemma_bit_ops(op_pawn_bb, mask, t);
                assert(board.cells()[t as int] == Some((color.opposite(), Piece::Pawn)));
                assert(!passed(*board, color, s0));
            } else {
                assert forall|t: int| 0 <= t < 64 && #[trigger] board.cells()[t] == Some((color.opposite(), Piece::Pawn)) implies !in_front(color, s0, t) by {
                    lemma_bit_ops(op_pawn_bb, mask, t as u64);
                    assert(bit(op_pawn_bb, t as u64));
                }
                assert(passed(*board, color, s0));
            }
        }
        if blockers == 0 {
            let adv = match color {
                Color::White => sq.rank(),
                Color::Black => 7 - sq.rank(),
            };
            score = score + passed_pawn_bonus(adv);
        }
    }
    proof {
        lemma_bb_sum_zero(w, 64);
    }
    score
}

/// How many of the first `n` files hold two or more pawns of colour `c`.
pub open spec fn doubled_files(b: Board, c: Color, n: nat) -> int
    decreases n,
{
    if n == 0 {
        0
    } else {
        doubled_files(b, c, (n - 1) as nat) + if popcount(
            b.piece_bb(c, Piece::Pawn) & (crate::pawn_batch::FILE_A << ((n - 1) as u64)),
        ) > 1 {
            1int
        } else {
            0int
        }
    }
}

/// The doubled-pawn penalty of `c`: `DOUBLE_PAWN_VALUE` for each file holding two or
/// more of its pawns.
pub open spec fn doubled_spec(b: Board, c: Color) -> int {
    DOUBLE_PAWN_VALUE * doubled_files(b, c, 8)
}

/// Sums the doubled-pawn penalties of `color`.
pub fn punish_double_pawns(board: &Board, color: Color) -> (r: i32)
    ensures
        r == doubled_spec(*board, color),
        -320 <= r <= 0,
{
    let pawns = board.get_piece_bitboard(color, Piece::Pawn);
    let mut score: i32 = 0;
    let mut i: u64 = 0;
    while i < 8
        invariant
            i <= 8,
            pawns == board.piece_bb(color, Piece::Pawn),
            score == -40 * doubled_files(*board, color, i as nat),
            0 <= doubled_files(*board, color, i as nat) <= i,
        decreases 8 - i,
    {
        let on_file = count_ones(pawns & (crate::pawn_batch::FILE_A << i));
        proof {
            assert(doubled_files(*board, color, (i + 1) as nat) == doubled_files(*board, color, i as nat) + if popcount(
                pawns & (crate::pawn_batch::FILE_A << i),
            ) > 1 {
                1int
            } else {
                0int
            });
        }
        if on_file > 1 {
            score = score + DOUBLE_PAWN_VALUE;
        }
        i = i + 1;
    }
    assert(DOUBLE_PAWN_VALUE == -40);
    score
}

/// The squares that a piece of kind `p` and colour `c` on `s` attacks, other than those
/// holding a piece of its own colour.
pub open spec fn reach(b: Board, c: Color, p: Piece, s: int) -> spec_fn(int) -> bool {
    |t: int| crate::position::piece_attacks(p, c, s, t, crate::position::empty_between(b.cells(), s, t))
        && !crate::board_state::holds(b.cells()[t], c)
}

/// `k` times the number of squares a piece of kind `p` and colour `c` reaches from each
/// square.
pub open spec fn mobility_weight(b: Board, c: Color, p: Piece, k: int) -> spec_fn(int) -> int {
    |s: int| k * popcount(crate::bits::mask_of(reach(b, c, p, s), 64))
}

/// The mobility of the pieces of kind `p` and colour `c`, weighted by `k`.
pub open spec fn mobility_part(b: Board, c: Color, p: Piece, k: int) -> int {
    bb_sum(b.piece_bb(c, p), mobility_weight(b, c, p, k), 64)
}

/// The mobility score of `c`: the squares its knights, bishops, rooks and queens reach,
/// weighted 4, 3, 2 and 1.
pub open spec fn mobility_spec(b: Board, c: Color) -> int {
    mobility_part(b, c, Piece::Knight, 4) + mobility_part(b, c, Piece::Bishop, 3) + mobility_part(
        b,
        c,
        Piece::Rook,
        2,
    ) + mobility_part(b, c, Piece::Queen, 1)
}

/// The squares reached by the piece of kind `p` on `sq`, as a bitboard.
fn reach_bb(board: &Board, c: Color, p: Piece, sq: crate::square::Sq64) -> (r: u64)
    requires
        board.wf(),
        sq.valid(),
        p == Piece::Knight || p == Piece::Bishop || p == Piece::Rook || p == Piece::Queen,
    ensures
        r == crate::bits::mask_of(reach(*board, c, p, sq.0 as int), 64),
{
    let own = board.occ_friendly(c);
    let occ = board.occ();
    let att = match p {
        Piece::Knight => crate::attacks::knight_attacks(sq),
        Piece::Bishop => crate::attacks::get_bishop_moves(sq, occ),
        Piece::Rook => crate::attacks::get_rook_moves(sq, occ),
        _ => {
            let bq = crate::attacks::get_bishop_moves(sq, occ);
            let rq = crate::attacks::get_rook_moves(sq, occ);
            proof {
                assert forall|t: u64| t < 64 implies #[trigger] bit(bq | rq, t) == (bit(bq, t) || bit(rq, t)) by {
                    lemma_bit_ops(bq, rq, t);
                }
            }
            bq | rq
        },
    };
    let r = att & !own;
    proof {
        let s0 = sq.0 as int;
        crate::bits::lemma_mask_of(reach(*board, c, p, s0), 64);
        assert forall|t: u64| t < 64 implies #[trigger] bit(r, t) == bit(crate::bits::mask_of(reach(*board, c, p, s0), 64), t) by {
            lemma_bit_ops(att, !own, t);
            lemma_bit_ops(own, own, t);
            crate::geometry::lemma_knight_rel(s0, t as int);
            crate::geometry::lemma_bishop_slides(s0, occ, t as int);
            crate::geometry::lemma_rook_slides(s0, occ, t as int);
            crate::position::lemma_path_clear_cells(*board, s0, t as int);
            assert(bit(own, t) <==> crate::board_state::holds(board.cells()[t as int], c));
        }
        crate::bits::lemma_bit_ext(r, crate::bits::mask_of(reach(*board, c, p, s0), 64));
    }
    r
}

/// Sums `k` times the number of squares reached, over the pieces of kind `p` of `c`.
fn mobility_sum(board: &Board, c: Color, p: Piece, k: i32) -> (r: i32)
    requires
        board.wf(),
        p == Piece::Knight || p == Piece::Bishop || p == Piece::Rook || p == Piece::Queen,
        1 <= k <= 4,
    ensures
        r == mobility_part(*board, c, p, k as int),
        0 <= r <= 64 * 256,
{
    let ghost w = mobility_weight(*board, c, p, k as int);
    let bb = board.get_piece_bitboard(c, p);
    proof {
        assert forall|i: int| 0 <= i < 64 implies 0 <= #[trigger] w(i) <= 256 by {
            let m = crate::bits::mask_of(reach(*board, c, p, i), 64);
            assert forall|j: int| 0 <= j < 64 implies 0 <= #[trigger] crate::bits::unit_weight()(j) <= 1 by {}
            lemma_bb_sum_bounds(m, crate::bits::unit_weight(), 64, 0, 1);
            assert(0 <= k * popcount(m) <= 256) by (nonlinear_arith)
                requires
                    1 <= k <= 4,
                    0 <= popcount(m) <= 64,
            ;
        }
        lemma_bb_sum_bounds(bb, w, 64, 0, 256);
    }
    let mut rest = bb;
    let mut score: i32 = 0;
    while rest != 0
        invariant
            board.wf(),
            w == mobility_weight(*board, c, p, k as int),
            p == Piece::Knight || p == Piece::Bishop || p == Piece::Rook || p == Piece::Queen,
            1 <= k <= 4,
            forall|i: int| 0 <= i < 64 ==> 0 <= #[trigger] w(i) <= 256,
            score + bb_sum(rest, w, 64) == bb_sum(bb, w, 64),
            0 <= bb_sum(bb, w, 64) <= 64 * 256,
            0 <= bb_sum(rest, w, 64) <= 64 * 256,
        decreases rest,
    {
        let ghost r0 = rest;
        proof {
            lemma_bb_sum_pop(rest, w);
            lemma_pop_lsb(rest);
            lemma_bb_sum_bounds(rest & ((rest - 1) as u64), w, 64, 0, 256);
        }
        let sq = pop_lsb(&mut rest);
        proof {
            assert(rest == r0 & ((r0 - 1) as u64)) by {
                assert forall|i: u64| i < 64 implies #[trigger] bit(rest, i) == bit(r0 & ((r0 - 1) as u64), i) by {}
                crate::bits::lemma_bit_ext(rest, r0 & ((r0 - 1) as u64));
            }
        }
        let att = reach_bb(board, c, p, sq);
        let n = count_ones(att) as i32;
        proof {
            assert(n * k == w(sq.0 as int)) by (nonlinear_arith)
                requires
                    n == popcount(crate::bits::mask_of(reach(*board, c, p, sq.0 as int), 64)),
                    w(sq.0 as int) == k * popcount(crate::bits::mask_of(reach(*board, c, p, sq.0 as int), 64)),
            ;
        }
        score = score + n * k;
    }
    proof {
        lemma_bb_sum_zero(w, 64);
    }
    score
}

/// The mobility score of `color` (see `mobility_spec`).
pub fn mobility(board: &Board, color: Color) -> (r: i32)
    requires
        board.wf(),
    ensures
        r == mobility_spec(*board, color),
        0 <= r <= 4 * 64 * 256,
{
    let n = mobility_sum(board, color, Piece::Knight, 4);
    let b = mobility_sum(board, color, Piece::Bishop, 3);
    let r = mobility_sum(board, color, Piece::Rook, 2);
    let q = mobility_sum(board, color, Piece::Queen, 1);
    n + b + r + q
}

/// The score of colour `c` at game phase `phase`: piece values and tables, doubled and
/// passed pawns, the bishop pair and mobility.
pub open spec fn side_score_spec(b: Board, c: Color, t: PieceSquareTables, phase: int) -> int {
    count_pst_spec(b, c, t) + count_pst_phase_spec(b, c, t, phase) + doubled_spec(b, c) + passed_pawns_spec(
        b,
        c,
    ) + bishop_pair_spec(b, c) + mobility_spec(b, c)
}

/// The evaluation for the side `side` to move: its score less the other side's.
pub open spec fn eval_spec(b: Board, side: Color, t: PieceSquareTables) -> int {
    let phase = game_phase_spec(b);
    side_score_spec(b, side, t, phase) - side_score_spec(b, side.opposite(), t, phase)
}

/// Law: the evaluation is one side's score less the other's, so for the other side to
/// move it changes sign.
pub proof fn law_eval_side_flip(b: Board, c: Color, t: PieceSquareTables)
    ensures
        eval_spec(b, c.opposite(), t) == -eval_spec(b, c, t),
{
    assert(c.opposite().opposite() == c);
}

/// The score of colour `c` (see `side_score_spec`).
fn side_score(board: &Board, c: Color, tables: &PieceSquareTables, phase: i32) -> (r: i32)
    requires
        board.wf(),
        crate::position::pawns_inside(board.cells()),
        tables.bounded(),
        0 <= phase <= TOTAL_PHASE,
    ensures
        r == side_score_spec(*board, c, *tables, phase as int),
        -8 * 64 * 11000 <= r <= 8 * 64 * 11000,
{
    let mut color_score = count_pst(board, c, tables);
    color_score = color_score + count_pst_phase(board, c, tables, phase);
    color_score = color_score + punish_double_pawns(board, c);
    color_score = color_score + score_past_pawns(board, c);
    color_score = color_score + bishop_pair(board, c);
    color_score = color_score + mobility(board, c);
    color_score
}

/// Evaluates the position for the side to move, in centipawns.
pub fn eval(board_state: &crate::board_state::BoardState, tables: &PieceSquareTables) -> (r: i32)
    requires
        board_state.board.wf(),
        crate::position::pawns_inside(board_state.board.cells()),
        tables.bounded(),
    ensures
        r == eval_spec(board_state.board, board_state.state_info.active_color, *tables),
        -16 * 64 * 11000 <= r <= 16 * 64 * 11000,
{
    let board = &board_state.board;
    let phase = game_phase(board);
    let active = board_state.state_info.active_color;
    let mut score: i32 = 0;
    let white = side_score(board, Color::White, tables, phase);
    if active == Color::White {
        score = score + white;
    } else {
        score = score - white;
    }
    let black = side_score(board, Color::Black, tables, phase);
    if active == Color::Black {
        score = score + black;
    } else {
        score = score - black;
    }
    score
}

/// The square with the same file on the rank counted from the other side.
pub open spec fn flip_rank(s: int) -> int {
    8 * (7 - s / 8) + s % 8
}

/// The same piece in the other colour.
pub open spec fn swap_colour(cell: crate::board::Cell) -> crate::board::Cell {
    match cell {
        Some((c, p)) => Some((c.opposite(), p)),
        None => None,
    }
}

/// `b2` is `b1` seen from the other side: every piece changes colour and the ranks are
/// mirrored.
pub open spec fn colour_mirrored(b1: Board, b2: Board) -> bool {
    forall|s: int| 0 <= s < 64 ==> #[trigger] b2.cells()[s] == swap_colour(b1.cells()[flip_rank(s)])
}

/// What the square `s` adds to `bb_sum`.
pub open spec fn bb_term(bb: u64, w: spec_fn(int) -> int, s: int) -> int {
    if bit(bb, s as u64) {
        w(s)
    } else {
        0
    }
}

/// Mirroring the ranks keeps a square on the board, keeps its file and turns its rank
/// round.
proof fn lemma_flip_rank(s: int)
    requires
        0 <= s < 64,
    ensures
        0 <= flip_rank(s) < 64,
        flip_rank(s) / 8 == 7 - s / 8,
        flip_rank(s) % 8 == s % 8,
        flip_rank(flip_rank(s)) == s,
{
    crate::geometry::lemma_sq_decompose(s);
    let q = s / 8;
    let r = s % 8;
    assert((8 * (7 - q) + r) / 8 == 7 - q && (8 * (7 - q) + r) % 8 == r) by (nonlinear_arith)
        requires
            0 <= r < 8,
            0 <= q < 8,
    ;
    assert((8 * q + r) / 8 == q && (8 * q + r) % 8 == r) by (nonlinear_arith)
        requires
            0 <= r < 8,
            0 <= q < 8,
    ;
}

/// The terms of the eight squares of rank `r`.
pub open spec fn rank_terms(bb: u64, w: spec_fn(int) -> int, r: int) -> int {
    bb_term(bb, w, 8 * r + 0) + bb_term(bb, w, 8 * r + 1) + bb_term(bb, w, 8 * r + 2) + bb_term(bb, w, 8 * r + 3) + bb_term(bb, w, 8 * r + 4) + bb_term(bb, w, 8 * r + 5) + bb_term(bb, w, 8 * r + 6) + bb_term(bb, w, 8 * r + 7)
}

/// A rank of eight squares adds its eight terms to `bb_sum`.
proof fn lemma_bb_sum_rank(bb: u64, w: spec_fn(int) -> int, r: int)
    requires
        0 <= r < 8,
    ensures
        bb_sum(bb, w, (8 * r + 8) as nat) == bb_sum(bb, w, (8 * r) as nat) + rank_terms(bb, w, r),
{
    reveal_with_fuel(bb_sum, 9);
}

/// With the terms of one sum those of another at the mirrored squares, a rank of the
/// first adds what the mirrored rank of the other adds.
proof fn lemma_rank_flip(bb1: u64, w1: spec_fn(int) -> int, bb2: u64, w2: spec_fn(int) -> int, r: int)
    requires
        forall|s: int| 0 <= s < 64 ==> #[trigger] bb_term(bb2, w2, s) == bb_term(bb1, w1, flip_rank(s)),
        0 <= r < 8,
    ensures
        rank_terms(bb2, w2, r) == rank_terms(bb1, w1, 7 - r),
{
    assert forall|k: int| 0 <= k < 8 implies #[trigger] flip_rank(8 * r + k) == 8 * (7 - r) + k by {
        assert((8 * r + k) / 8 == r && (8 * r + k) % 8 == k) by (nonlinear_arith)
            requires
                0 <= k < 8,
                0 <= r < 8,
        ;
    }
    assert(flip_rank(8 * r + 0) == 8 * (7 - r) + 0);
    assert(flip_rank(8 * r + 1) == 8 * (7 - r) + 1);
    assert(flip_rank(8 * r + 2) == 8 * (7 - r) + 2);
    assert(flip_rank(8 * r + 3) == 8 * (7 - r) + 3);
    assert(flip_rank(8 * r + 4) == 8 * (7 - r) + 4);
    assert(flip_rank(8 * r + 5) == 8 * (7 - r) + 5);
    assert(flip_rank(8 * r + 6) == 8 * (7 - r) + 6);
    assert(flip_rank(8 * r + 7) == 8 * (7 - r) + 7);
}

/// A sum over the board whose terms are those of another sum with the ranks mirrored
/// is that sum.
proof fn lemma_bb_sum_flip(bb1: u64, w1: spec_fn(int) -> int, bb2: u64, w2: spec_fn(int) -> int)
    requires
        forall|s: int| 0 <= s < 64 ==> #[trigger] bb_term(bb2, w2, s) == bb_term(bb1, w1, flip_rank(s)),
    ensures
        bb_sum(bb2, w2, 64) == bb_sum(bb1, w1, 64),
{
    assert(bb_sum(bb1, w1, 0) == 0 && bb_sum(bb2, w2, 0) == 0);
    lemma_bb_sum_rank(bb1, w1, 0);
    lemma_bb_sum_rank(bb1, w1, 1);
    lemma_bb_sum_rank(bb1, w1, 2);
    lemma_bb_sum_rank(bb1, w1, 3);
    lemma_bb_sum_rank(bb1, w1, 4);
    lemma_bb_sum_rank(bb1, w1, 5);
    lemma_bb_sum_rank(bb1, w1, 6);
    lemma_bb_sum_rank(bb1, w1, 7);
    lemma_bb_sum_rank(bb2, w2, 0);
    lemma_bb_sum_rank(bb2, w2, 1);
    lemma_bb_sum_rank(bb2, w2, 2);
    lemma_bb_sum_rank(bb2, w2, 3);
    lemma_bb_sum_rank(bb2, w2, 4);
    lemma_bb_sum_rank(bb2, w2, 5);
    lemma_bb_sum_rank(bb2, w2, 6);
    lemma_bb_sum_rank(bb2, w2, 7);
    lemma_rank_flip(bb1, w1, bb2, w2, 0);
    lemma_rank_flip(bb1, w1, bb2, w2, 1);
    lemma_rank_flip(bb1, w1, bb2, w2, 2);
    lemma_rank_flip(bb1, w1, bb2, w2, 3);
    lemma_rank_flip(bb1, w1, bb2, w2, 4);
    lemma_rank_flip(bb1, w1, bb2, w2, 5);
    lemma_rank_flip(bb1, w1, bb2, w2, 6);
    lemma_rank_flip(bb1, w1, bb2, w2, 7);
}

/// A pawn of one colour is passed exactly when the pawn of the other colour on the
/// mirrored square of the mirrored board is, and has advanced as far.
proof fn lemma_passed_flip(b1: Board, b2: Board, c: Color, s: int)
    requires
        colour_mirrored(b1, b2),
        b1.cells().len() == 64,
        0 <= s < 64,
    ensures
        passed(b2, c.opposite(), s) == passed(b1, c, flip_rank(s)),
        advance(c.opposite(), s) == advance(c, flip_rank(s)),
{
    lemma_flip_rank(s);
    let fs = flip_rank(s);
    let co = c.opposite();
    assert(co.opposite() == c);
    if passed(b1, c, fs) {
        assert forall|t: int|
            0 <= t < 64 && #[trigger] b2.cells()[t] == Some((co.opposite(), Piece::Pawn)) implies !in_front(co, s, t) by {
            lemma_flip_rank(t);
            assert(b2.cells()[t] == swap_colour(b1.cells()[flip_rank(t)]));
            assert(b1.cells()[flip_rank(t)] == Some((c.opposite(), Piece::Pawn)));
            assert(!in_front(c, fs, flip_rank(t)));
        }
    }
    if passed(b2, co, s) {
        assert forall|t: int|
            0 <= t < 64 && #[trigger] b1.cells()[t] == Some((c.opposite(), Piece::Pawn)) implies !in_front(c, fs, t) by {
            lemma_flip_rank(t);
            let u = flip_rank(t);
            assert(b2.cells()[u] == swap_colour(b1.cells()[flip_rank(u)]));
            assert(b2.cells()[u] == Some((co.opposite(), Piece::Pawn)));
            assert(!in_front(co, s, u));
        }
    }
}

/// Law: the passed-pawn score is colour-symmetric: on the board seen from the other side
/// (colours swapped, ranks mirrored), the other colour's passed pawns score what this
/// colour's scored. A Black pawn on a2 thus counts as a White pawn on a7, six ranks from
/// its start.
pub proof fn law_passed_pawns_mirror(b1: Board, b2: Board, c: Color)
    requires
        b1.wf(),
        b2.wf(),
        colour_mirrored(b1, b2),
    ensures
        passed_pawns_spec(b2, c.opposite()) == passed_pawns_spec(b1, c),
{
    let co = c.opposite();
    let bb1 = b1.piece_bb(c, Piece::Pawn);
    let bb2 = b2.piece_bb(co, Piece::Pawn);
    let w1 = passed_weight(b1, c);
    let w2 = passed_weight(b2, co);
    b1.lemma_cells_len();
    assert forall|s: int| 0 <= s < 64 implies #[trigger] bb_term(bb2, w2, s) == bb_term(bb1, w1, flip_rank(s)) by {
        lemma_flip_rank(s);
        lemma_passed_flip(b1, b2, c, s);
        let fs = flip_rank(s);
        assert(bit(bb2, s as u64) == (b2.cells()[(s as u64) as int] == Some((co, Piece::Pawn))));
        assert(bit(bb1, fs as u64) == (b1.cells()[(fs as u64) as int] == Some((c, Piece::Pawn))));
        assert(b2.cells()[s] == swap_colour(b1.cells()[fs]));
        assert(co.opposite() == c);
        if b1.cells()[fs] is Some {
            assert(b1.cells()[fs].unwrap().0 == Color::White || b1.cells()[fs].unwrap().0 == Color::Black);
        }
    }
    lemma_bb_sum_flip(bb1, w1, bb2, w2);
}

/// Law: a White passed pawn (pawns stand short of the last rank) scores more the
/// further it has advanced, up to 100 on the rank before promotion (with `law_passed_pawns_mirror`, a Black passed pawn likewise
/// as it goes down the board).
pub proof fn law_passed_bonus_grows(b: Board, s1: int, s2: int)
    requires
        0 <= s1 < 64,
        0 <= s2 < 64,
        passed(b, Color::White, s1),
        passed(b, Color::White, s2),
        s1 / 8 <= s2 / 8 <= 6,
    ensures
        passed_weight(b, Color::White)(s1) <= passed_weight(b, Color::White)(s2),
        s1 / 8 < s2 / 8 && 1 <= s1 / 8 ==> passed_weight(b, Color::White)(s1) < passed_weight(b, Color::White)(s2),
        s2 / 8 == 6 ==> passed_weight(b, Color::White)(s2) == 100,
{
}

} // verus!
