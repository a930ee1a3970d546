use vstd::prelude::*;
use crate::board::{Board, Cell};
use crate::piece::{Color, Piece};
use crate::square::Sq64;
use crate::state_info::{castle_offset, FenErr, StateInfo};
use vstd::string::StringSliceAdditionalSpecFns;
use crate::env::{ws_lead, ws_lead_at};

verus! {

// ----- numbers -----

/// Whether every byte is an ASCII digit.
pub open spec fn all_digits(s: Seq<u8>) -> bool {
    forall|i: int| 0 <= i < s.len() ==> 48 <= #[trigger] s[i] <= 57
}

/// The value of a string of ASCII digits.
pub open spec fn digits_value(s: Seq<u8>) -> int
    decreases s.len(),
{
    if s.len() == 0 {
        0
    } else {
        digits_value(s.drop_last()) * 10 + (s.last() - 48)
    }
}

/// The decimal value of `s` as an unsigned number up to `max`, the way Rust's
/// `from_str` reads unsigned integers: an optional `+`, then at least one digit.
pub open spec fn parse_unsigned(s: Seq<u8>, max: int) -> Option<int> {
    let body = if s.len() > 0 && s[0] == 43 {
        s.drop_first()
    } else {
        s
    };
    if body.len() > 0 && all_digits(body) && digits_value(body) <= max {
        Some(digits_value(body))
    } else {
        None
    }
}

proof fn lemma_digits_monotone(s: Seq<u8>, n: int)
    requires
        all_digits(s),
        0 <= n <= s.len(),
    ensures
        digits_value(s.take(n)) <= digits_value(s),
        digits_value(s.take(n)) >= 0,
    decreases s.len() - n,
{
    if n < s.len() {
        lemma_digits_monotone(s, n + 1);
        assert(s.take(n + 1).drop_last() =~= s.take(n));
        lemma_digits_nonneg(s.take(n));
    } else {
        assert(s.take(n) =~= s);
        lemma_digits_nonneg(s);
    }
}

proof fn lemma_digits_nonneg(s: Seq<u8>)
    requires
        all_digits(s),
    ensures
        digits_value(s) >= 0,
    decreases s.len(),
{
    if s.len() > 0 {
        assert(all_digits(s.drop_last()));
        lemma_digits_nonneg(s.drop_last());
    }
}

/// A value read by `parse_unsigned` lies between 0 and `max`.
pub proof fn lemma_parse_unsigned_range(s: Seq<u8>, max: int)
    ensures
        parse_unsigned(s, max) matches Some(v) ==> 0 <= v <= max,
{
    let body = if s.len() > 0 && s[0] == 43 {
        s.drop_first()
    } else {
        s
    };
    if all_digits(body) {
        lemma_digits_nonneg(body);
    }
}

/// Reads an unsigned decimal number no larger than `max` (see `parse_unsigned`).
pub fn parse_number(s: &[u8], max: u64) -> (r: Option<u64>)
    ensures
        match parse_unsigned(s@, max as int) {
            Some(v) => r == Some(v as u64) && 0 <= v <= max,
            None => r is None,
        },
{
    proof {
        lemma_parse_unsigned_range(s@, max as int);
    }
    let mut start: usize = 0;
    if s.len() > 0 && s[0] == 43 {
        start = 1;
    }
    let ghost body = if s@.len() > 0 && s@[0] == 43 { s@.drop_first() } else { s@ };
    if start >= s.len() {
        return None;
    }
    let mut value: u64 = 0;
    let mut i = start;
    while i < s.len()
        invariant
            start <= i <= s.len(),
            start == 0 || start == 1,
            body == s@.subrange(start as int, s@.len() as int),
            body == (if s@.len() > 0 && s@[0] == 43 { s@.drop_first() } else { s@ }),
            all_digits(body.take(i - start)),
            value == digits_value(body.take(i - start)),
            value <= max,
        decreases s.len() - i,
    {
        let b = s[i];
        if b < 48 || b > 57 {
            proof {
                assert(body[i - start] == b);
                assert(!all_digits(body));
                assert(parse_unsigned(s@, max as int) is None);
            }
            return None;
        }
        let d = (b - 48) as u64;
        let next: u128 = (value as u128) * 10 + (d as u128);
        proof {
            let t = body.take(i - start + 1);
            assert(t.drop_last() =~= body.take(i - start));
            assert(t.last() == b);
            assert(all_digits(t));
            assert(digits_value(t) == next);
        }
        if next > max as u128 {
            proof {
                if all_digits(body) {
                    lemma_digits_monotone(body, i - start + 1);
                    assert(digits_value(body) > max);
                }
                assert(parse_unsigned(s@, max as int) is None);
            }
            return None;
        }
        value = next as u64;
        i += 1;
    }
    proof {
        assert(body.take(i - start) =~= body);
    }
    Some(value)
}


// ----- castling rights, squares, side to move -----

/// The castling bit a letter of the castling field stands for.
pub open spec fn castle_letter(b: u8) -> Option<u8> {
    if b == 75 {
        Some(8u8)
    } else if b == 81 {
        Some(4u8)
    } else if b == 107 {
        Some(2u8)
    } else if b == 113 {
        Some(1u8)
    } else {
        None
    }
}

/// The OR of the bits of the letters, or `None` if some byte is not one of `KQkq` or a
/// letter comes twice.
pub open spec fn castle_bits(s: Seq<u8>) -> Option<u8>
    decreases s.len(),
{
    if s.len() == 0 {
        Some(0u8)
    } else {
        match castle_bits(s.drop_last()) {
            None => None,
            Some(x) => match castle_letter(s.last()) {
                None => None,
                Some(b) => if x & b != 0 {
                    None
                } else {
                    Some(x | b)
                },
            },
        }
    }
}

/// The castling field: `-` for none, otherwise letters among `KQkq`, each at most once.
pub open spec fn spec_castle_rights(s: Seq<u8>) -> Result<u8, FenErr> {
    if s == seq![45u8] {
        Ok(0u8)
    } else {
        match castle_bits(s) {
            Some(x) => Ok(x),
            None => Err(FenErr::InvalidCastleRights),
        }
    }
}

/// Bits of an OR, and of the four castling bits.
proof fn lemma_castle_or(x: u8, b: u8)
    by (bit_vector)
    ensures
        ((x | b) & 8u8 != 0u8) == ((x & 8u8 != 0u8) || (b & 8u8 != 0u8)),
        0u8 & 8u8 == 0u8,
        ((x | b) & 4u8 != 0u8) == ((x & 4u8 != 0u8) || (b & 4u8 != 0u8)),
        0u8 & 4u8 == 0u8,
        ((x | b) & 2u8 != 0u8) == ((x & 2u8 != 0u8) || (b & 2u8 != 0u8)),
        0u8 & 2u8 == 0u8,
        ((x | b) & 1u8 != 0u8) == ((x & 1u8 != 0u8) || (b & 1u8 != 0u8)),
        0u8 & 1u8 == 0u8,
        (8u8 & 8u8 != 0u8) == true,
        (8u8 & 4u8 != 0u8) == false,
        (8u8 & 2u8 != 0u8) == false,
        (8u8 & 1u8 != 0u8) == false,
        (4u8 & 8u8 != 0u8) == false,
        (4u8 & 4u8 != 0u8) == true,
        (4u8 & 2u8 != 0u8) == false,
        (4u8 & 1u8 != 0u8) == false,
        (2u8 & 8u8 != 0u8) == false,
        (2u8 & 4u8 != 0u8) == false,
        (2u8 & 2u8 != 0u8) == true,
        (2u8 & 1u8 != 0u8) == false,
        (1u8 & 8u8 != 0u8) == false,
        (1u8 & 4u8 != 0u8) == false,
        (1u8 & 2u8 != 0u8) == false,
        (1u8 & 1u8 != 0u8) == true,
{
}

/// The bits of the castling letters read are those of the letters present.
proof fn lemma_castle_bits_letters(s: Seq<u8>)
    ensures
        castle_bits(s) matches Some(x) ==> {
            &&& (x & 8u8 != 0u8) == s.contains(75u8)
            &&& (x & 4u8 != 0u8) == s.contains(81u8)
            &&& (x & 2u8 != 0u8) == s.contains(107u8)
            &&& (x & 1u8 != 0u8) == s.contains(113u8)
        },
    decreases s.len(),
{
    lemma_castle_or(0u8, 0u8);
    if s.len() > 0 {
        let d = s.drop_last();
        lemma_castle_bits_letters(d);
        if let Some(x) = castle_bits(d) {
            if let Some(b) = castle_letter(s.last()) {
                lemma_castle_or(x, b);
                assert(s =~= d.push(s.last()));
                assert forall|l: u8| #[trigger] s.contains(l) == (d.contains(l) || s.last() == l) by {
                    if s.contains(l) {
                        let i = choose|i: int| 0 <= i < s.len() && s[i] == l;
                        if i < s.len() - 1 {
                            assert(d[i] == l);
                        }
                    }
                    if d.contains(l) {
                        let i = choose|i: int| 0 <= i < d.len() && d[i] == l;
                        assert(s[i] == l);
                    }
                    if s.last() == l {
                        assert(s[s.len() - 1] == l);
                    }
                }
            }
        }
    }
}

/// Law: each letter of a FEN castling field grants exactly the right that
/// `has_castle_rights` reads: `K` White's kingside castling, `Q` White's queenside, `k`
/// Black's kingside, `q` Black's queenside; `-` grants none.
pub proof fn law_castle_letters(s: Seq<u8>, cr: u8)
    requires
        spec_castle_rights(s) == Ok::<u8, FenErr>(cr),
    ensures
        s.contains(75u8) == ((cr >> castle_offset(Color::White, true)) & 1u8 == 1u8),
        s.contains(81u8) == ((cr >> castle_offset(Color::White, false)) & 1u8 == 1u8),
        s.contains(107u8) == ((cr >> castle_offset(Color::Black, true)) & 1u8 == 1u8),
        s.contains(113u8) == ((cr >> castle_offset(Color::Black, false)) & 1u8 == 1u8),
{
    crate::legality::lemma_castle_bits(cr);
    lemma_castle_or(0u8, 0u8);
    if s == seq![45u8] {
        assert(!s.contains(75u8) && !s.contains(81u8) && !s.contains(107u8) && !s.contains(113u8)) by {
            if s.contains(75u8) || s.contains(81u8) || s.contains(107u8) || s.contains(113u8) {
                let i = choose|i: int| 0 <= i < s.len() && (s[i] == 75u8 || s[i] == 81u8 || s[i] == 107u8 || s[i] == 113u8);
                assert(s[i] == 45u8);
            }
        }
    } else {
        lemma_castle_bits_letters(s);
    }
}

proof fn lemma_castle_bits_small(s: Seq<u8>)
    ensures
        castle_bits(s) matches Some(x) ==> x < 16,
    decreases s.len(),
{
    if s.len() > 0 {
        lemma_castle_bits_small(s.drop_last());
        if let Some(x) = castle_bits(s.drop_last()) {
            if let Some(b) = castle_letter(s.last()) {
                assert(x < 16 && b < 16 ==> (x | b) < 16) by (bit_vector);
            }
        }
    }
}

/// Reads the castling field of a FEN.
pub fn castle_rights(rights: &[u8]) -> (r: Result<u8, FenErr>)
    ensures
        r == spec_castle_rights(rights@),
        r matches Ok(x) ==> x < 16,
{
    proof {
        lemma_castle_bits_small(rights@);
    }
    if rights.len() == 1 && rights[0] == 45 {
        assert(rights@ =~= seq![45u8]);
        return Ok(0);
    }
    assert(rights@ != seq![45u8]);
    let mut cr: u8 = 0;
    let mut i: usize = 0;
    while i < rights.len()
        invariant
            i <= rights.len(),
            castle_bits(rights@.take(i as int)) == Some(cr),
            rights@ != seq![45u8],
        decreases rights.len() - i,
    {
        let c = rights[i];
        proof {
            assert(rights@.take(i + 1).drop_last() =~= rights@.take(i as int));
        }
        let bit: u8 = if c == 75 {
            8
        } else if c == 81 {
            4
        } else if c == 107 {
            2
        } else if c == 113 {
            1
        } else {
            proof {
                assert(rights@.take(i + 1).last() == c);
                assert(castle_bits(rights@.take(i + 1)) is None);
                lemma_castle_bits_none_extends(rights@, i as int + 1);
            }
            return Err(FenErr::InvalidCastleRights);
        };
        if cr & bit != 0 {
            proof {
                assert(rights@.take(i + 1).last() == c);
                assert(castle_bits(rights@.take(i + 1)) is None);
                lemma_castle_bits_none_extends(rights@, i as int + 1);
            }
            return Err(FenErr::InvalidCastleRights);
        }
        cr = cr | bit;
        i += 1;
    }
    assert(rights@.take(i as int) =~= rights@);
    Ok(cr)
}

proof fn lemma_castle_bits_none_extends(s: Seq<u8>, n: int)
    requires
        0 <= n <= s.len(),
        castle_bits(s.take(n)) is None,
    ensures
        castle_bits(s) is None,
    decreases s.len() - n,
{
    if n < s.len() {
        assert(s.take(n + 1).drop_last() =~= s.take(n));
        lemma_castle_bits_none_extends(s, n + 1);
    } else {
        assert(s.take(n) =~= s);
    }
}

/// The en passant square field: a file `a`-`h` then the rank `3` or `6`.
pub open spec fn spec_square(s: Seq<u8>) -> Result<Sq64, FenErr> {
    if s.len() == 2 && 97 <= s[0] <= 104 && (s[1] == 51 || s[1] == 54) {
        Ok(Sq64(((s[1] - 49) * 8 + (s[0] - 97)) as u8))
    } else {
        Err(FenErr::InvalidSquare)
    }
}

/// Reads a square name of the en passant field.
pub fn square_from_algebratic(s: &[u8]) -> (r: Result<Sq64, FenErr>)
    ensures
        r == spec_square(s@),
        r matches Ok(sq) ==> sq.valid(),
{
    if s.len() != 2 {
        return Err(FenErr::InvalidSquare);
    }
    let file = s[0];
    let rank = s[1];
    if !(97 <= file && file <= 104) || !(rank == 51 || rank == 54) {
        return Err(FenErr::InvalidSquare);
    }
    let file = file - 97;
    let rank = rank - 49;
    Ok(Sq64(rank * 8 + file))
}

/// The state fields of a FEN (side to move, castling, en passant, halfmove clock,
/// fullmove number), read in that order; the first field in error decides the error.
pub open spec fn spec_state_info(f: Seq<Seq<u8>>) -> Result<StateInfo, FenErr> {
    let color = if f[0] == seq![119u8] {
        Some(Color::White)
    } else if f[0] == seq![98u8] {
        Some(Color::Black)
    } else {
        None
    };
    if color is None {
        Err(FenErr::InvalidSideToMove)
    } else if spec_castle_rights(f[1]) is Err {
        Err(spec_castle_rights(f[1])->Err_0)
    } else if f[2] != seq![45u8] && spec_square(f[2]) is Err {
        Err(FenErr::InvalidSquare)
    } else if parse_unsigned(f[3], 49) is None {
        Err(FenErr::InvalidHalfmoveClock)
    } else if parse_unsigned(f[4], 0xFFFF_FFFF) is None {
        Err(FenErr::InvalidFullmoveNumber)
    } else {
        Ok(
            StateInfo {
                castle_rights: spec_castle_rights(f[1])->Ok_0,
                active_color: color.unwrap(),
                half_move_clock: parse_unsigned(f[3], 49).unwrap() as u8,
                full_move_number: parse_unsigned(f[4], 0xFFFF_FFFF).unwrap() as u32,
                ep_square: if f[2] == seq![45u8] {
                    None
                } else {
                    Some(spec_square(f[2])->Ok_0)
                },
            },
        )
    }
}

pub fn is_single(s: &[u8], b: u8) -> (r: bool)
    ensures
        r == (s@ == seq![b]),
{
    if s.len() == 1 && s[0] == b {
        assert(s@ =~= seq![b]);
        true
    } else {
        false
    }
}

/// Reads the five state fields of a FEN.
pub fn state_info_from_fields(f0: &[u8], f1: &[u8], f2: &[u8], f3: &[u8], f4: &[u8]) -> (r: Result<StateInfo, FenErr>)
    ensures
        r == spec_state_info(seq![f0@, f1@, f2@, f3@, f4@]),
        r matches Ok(si) ==> si.wf(),
{
    let ghost f = seq![f0@, f1@, f2@, f3@, f4@];
    assert(f[0] == f0@ && f[1] == f1@ && f[2] == f2@ && f[3] == f3@ && f[4] == f4@);
    let active_color = if is_single(f0, 119) {
        Color::White
    } else if is_single(f0, 98) {
        Color::Black
    } else {
        return Err(FenErr::InvalidSideToMove);
    };
    let castle = match castle_rights(f1) {
        Ok(c) => c,
        Err(e) => {
            return Err(e);
        },
    };
    let ep_square = if is_single(f2, 45) {
        None
    } else {
        match square_from_algebratic(f2) {
            Ok(sq) => Some(sq),
            Err(e) => {
                return Err(e);
            },
        }
    };
    let half = match parse_number(f3, 49) {
        Some(v) => v as u8,
        None => {
            return Err(FenErr::InvalidHalfmoveClock);
        },
    };
    let full = match parse_number(f4, 0xFFFF_FFFF) {
        Some(v) => v as u32,
        None => {
            return Err(FenErr::InvalidFullmoveNumber);
        },
    };
    assert(half == parse_unsigned(f3@, 49).unwrap() as u8);
    assert(full == parse_unsigned(f4@, 0xFFFF_FFFF).unwrap() as u32);
    assert(castle == spec_castle_rights(f1@)->Ok_0);
    Ok(
        StateInfo {
            castle_rights: castle,
            active_color,
            half_move_clock: half,
            full_move_number: full,
            ep_square,
        },
    )
}

impl StateInfo {
    /// Reads the state fields of a FEN given as its fields after the placement
    /// (at least five: side to move, castling, en passant, halfmove clock, fullmove number).
    pub fn from_fen(fen_parts: &[&str]) -> (r: Result<StateInfo, FenErr>)
        requires
            fen_parts@.len() >= 5,
        ensures
            r == spec_state_info(
                seq![
                    fen_parts@[0].spec_bytes(),
                    fen_parts@[1].spec_bytes(),
                    fen_parts@[2].spec_bytes(),
                    fen_parts@[3].spec_bytes(),
                    fen_parts@[4].spec_bytes(),
                ],
            ),
            r matches Ok(si) ==> si.wf(),
    {
        state_info_from_fields(
            fen_parts[0].as_bytes(),
            fen_parts[1].as_bytes(),
            fen_parts[2].as_bytes(),
            fen_parts[3].as_bytes(),
            fen_parts[4].as_bytes(),
        )
    }
}

// ----- piece placement -----

/// The piece a FEN letter stands for, in either case (`p n b r q k`).
pub open spec fn letter_piece(b: u8) -> Option<Piece> {
    let l = if 65 <= b <= 90 {
        (b + 32) as u8
    } else {
        b
    };
    if l == 112 {
        Some(Piece::Pawn)
    } else if l == 110 {
        Some(Piece::Knight)
    } else if l == 98 {
        Some(Piece::Bishop)
    } else if l == 114 {
        Some(Piece::Rook)
    } else if l == 113 {
        Some(Piece::Queen)
    } else if l == 107 {
        Some(Piece::King)
    } else {
        None
    }
}

/// Lowercase letters are Black pieces, uppercase ones White.
pub open spec fn letter_color(b: u8) -> Color {
    if 97 <= b <= 122 {
        Color::Black
    } else {
        Color::White
    }
}

/// The state of reading a placement: (status, rank, file, squares, error), where the
/// status is 0 while reading and 1 once an error was found.
pub type PlacementScan = (int, int, int, Seq<Cell>, FenErr);

pub open spec fn empty_cells() -> Seq<Cell> {
    Seq::new(64, |i: int| None::<(Color, Piece)>)
}

/// One byte of the placement: `/` closes a rank of exactly eight squares, a digit
/// skips empty squares, a letter puts a piece on the next square; a piece past the
/// rank's eighth square is put nowhere (the rank is then too long, an error at its end).
pub open spec fn scan_step(st: PlacementScan, b: u8) -> PlacementScan {
    let (status, rank, file, cells, err) = st;
    if status != 0 {
        st
    } else if b == 47 {
        if file != 8 {
            (1, rank, file, cells, FenErr::InvalidRankLength)
        } else if rank == 0 {
            (1, rank, file, cells, FenErr::InvalidRankCount)
        } else {
            (0, rank - 1, 0, cells, err)
        }
    } else if 49 <= b <= 56 {
        (0, rank, file + (b - 48), cells, err)
    } else {
        match letter_piece(b) {
            None => (1, rank, file, cells, FenErr::InvalidCharInPiecePlacement),
            Some(p) => if file >= 8 {
                (0, rank, file + 1, cells, err)
            } else {
                (0, rank, file + 1, cells.update(file + rank * 8, Some((letter_color(b), p))), err)
            },
        }
    }
}

/// The state after reading the first `n` bytes, starting on rank 8 (index 7), file a.
pub open spec fn scan(s: Seq<u8>, n: nat) -> PlacementScan
    decreases n,
{
    if n == 0 {
        (0, 7, 0, empty_cells(), FenErr::InvalidFormat)
    } else {
        scan_step(scan(s, (n - 1) as nat), s[n - 1])
    }
}

/// The squares a FEN placement describes, or why it is refused: after the last byte the
/// last rank must be complete and all eight ranks read.
pub open spec fn spec_placement(s: Seq<u8>) -> Result<Seq<Cell>, FenErr> {
    let st = scan(s, s.len());
    if st.0 == 1 {
        Err(st.4)
    } else if st.2 != 8 {
        Err(FenErr::InvalidRankLength)
    } else if st.1 != 0 {
        Err(FenErr::InvalidRankCount)
    } else {
        Ok(st.3)
    }
}

proof fn lemma_scan_absorbing(s: Seq<u8>, n: nat, m: nat)
    requires
        n <= m <= s.len(),
        scan(s, n).0 != 0,
    ensures
        scan(s, m) == scan(s, n),
    decreases m - n,
{
    if m > n {
        lemma_scan_absorbing(s, n, (m - 1) as nat);
    }
}

proof fn lemma_scan_shape(s: Seq<u8>, n: nat)
    requires
        n <= s.len(),
    ensures
        scan(s, n).3.len() == 64,
        0 <= scan(s, n).1 <= 7,
        scan(s, n).2 >= 0,
        0 <= scan(s, n).0 <= 1,
    decreases n,
{
    if n > 0 {
        lemma_scan_shape(s, (n - 1) as nat);
    }
}

/// Reads the piece placement bytes of a FEN.
pub fn placement_from_bytes(bytes: &[u8]) -> (r: Result<[Cell; 64], FenErr>)
    ensures
        match spec_placement(bytes@) {
            Ok(cells) => r matches Ok(c) && c@ == cells,
            Err(e) => r == Err::<[Cell; 64], FenErr>(e),
        },
{
    let mut rank: u64 = 7;
    let mut file: u64 = 0;
    let mut cells: [Cell; 64] = [None; 64];
    let mut i: usize = 0;
    proof {
        assert(cells@ =~= empty_cells());
        lemma_scan_shape(bytes@, bytes@.len());
    }
    while i < bytes.len()
        invariant
            i <= bytes.len(),
            scan(bytes@, i as nat).0 == 0,
            scan(bytes@, i as nat).1 == rank,
            file == (if scan(bytes@, i as nat).2 >= 64 { 64 } else { scan(bytes@, i as nat).2 }),
            scan(bytes@, i as nat).3 == cells@,
        decreases bytes.len() - i,
    {
        proof {
            lemma_scan_shape(bytes@, i as nat);
            lemma_scan_shape(bytes@, (i + 1) as nat);
        }
        let c = bytes[i];
        if c == 47 {
            if file != 8 {
                proof {
                    lemma_scan_absorbing(bytes@, (i + 1) as nat, bytes@.len());
                }
                return Err(FenErr::InvalidRankLength);
            }
            if rank == 0 {
                proof {
                    lemma_scan_absorbing(bytes@, (i + 1) as nat, bytes@.len());
                }
                return Err(FenErr::InvalidRankCount);
            }
            file = 0;
            rank = rank - 1;
        } else if 49 <= c && c <= 56 {
            let d = (c - 48) as u64;
            file = if file + d >= 64 { 64 } else { file + d };
        } else {
            let lower: u8 = if 65 <= c && c <= 90 { c + 32 } else { c };
            let piece = if lower == 112 {
                Piece::Pawn
            } else if lower == 110 {
                Piece::Knight
            } else if lower == 98 {
                Piece::Bishop
            } else if lower == 114 {
                Piece::Rook
            } else if lower == 113 {
                Piece::Queen
            } else if lower == 107 {
                Piece::King
            } else {
                proof {
                    lemma_scan_absorbing(bytes@, (i + 1) as nat, bytes@.len());
                }
                return Err(FenErr::InvalidCharInPiecePlacement);
            };
            if file < 8 {
                let color = if 97 <= c && c <= 122 { Color::Black } else { Color::White };
                let sq = file + rank * 8;
                cells[sq as usize] = Some((color, piece));
            }
            file = if file >= 64 { 64 } else { file + 1 };
        }
        i += 1;
    }
    if file != 8 {
        return Err(FenErr::InvalidRankLength);
    }
    if rank != 0 {
        return Err(FenErr::InvalidRankCount);
    }
    Ok(cells)
}

impl Board {
    /// Reads the piece placement field of a FEN (ranks 8 down to 1 separated by `/`,
    /// digits for runs of empty squares, `PNBRQK` for White and `pnbrqk` for Black).
    pub fn from_fen_part(fen_part: &str) -> (r: Result<Board, FenErr>)
        ensures
            match spec_placement(fen_part.spec_bytes()) {
                Ok(cells) => r matches Ok(b) && b.wf() && b.cells() == cells,
                Err(e) => r == Err::<Board, FenErr>(e),
            },
    {
        Board::from_placement_bytes(fen_part.as_bytes())
    }

    /// Reads the piece placement field of a FEN given as bytes.
    pub fn from_placement_bytes(bytes: &[u8]) -> (r: Result<Board, FenErr>)
        ensures
            match spec_placement(bytes@) {
                Ok(cells) => r matches Ok(b) && b.wf() && b.cells() == cells,
                Err(e) => r == Err::<Board, FenErr>(e),
            },
    {
        match placement_from_bytes(bytes) {
            Ok(cells) => Ok(Board::from_cells(&cells)),
            Err(e) => Err(e),
        }
    }
}

// ----- fields -----

/// The fields of `s` after a field `cur` already begun: maximal runs of bytes that are
/// not part of a whitespace character (see `ws_lead`), in order.
pub open spec fn fields_from(s: Seq<u8>, cur: Seq<u8>) -> Seq<Seq<u8>>
    decreases s.len(),
{
    if s.len() == 0 {
        if cur.len() > 0 {
            seq![cur]
        } else {
            Seq::empty()
        }
    } else if ws_lead(s) > 0 {
        let rest = fields_from(s.skip(ws_lead(s)), Seq::empty());
        if cur.len() > 0 {
            seq![cur] + rest
        } else {
            rest
        }
    } else {
        fields_from(s.skip(1), cur.push(s[0]))
    }
}

/// The whitespace-separated fields of UTF-8 text, as `str::split_whitespace` gives them
/// (Unicode whitespace, such as U+3000, separates too).
pub open spec fn fields(s: Seq<u8>) -> Seq<Seq<u8>> {
    fields_from(s, Seq::empty())
}

pub open spec fn vecs_view(v: Seq<Vec<u8>>) -> Seq<Seq<u8>> {
    v.map_values(|x: Vec<u8>| x@)
}

/// Splits UTF-8 text into its whitespace-separated fields.
pub fn split_fields(s: &[u8]) -> (r: Vec<Vec<u8>>)
    ensures
        vecs_view(r@) == fields(s@),
{
    let mut done: Vec<Vec<u8>> = Vec::new();
    let mut cur: Vec<u8> = Vec::new();
    let mut i: usize = 0;
    proof {
        assert(s@.skip(0) =~= s@);
    }
    while i < s.len()
        invariant
            i <= s.len(),
            vecs_view(done@) + fields_from(s@.skip(i as int), cur@) == fields(s@),
        decreases s.len() - i,
    {
        let w = ws_lead_at(s, i);
        let ghost rest = s@.skip(i as int);
        if w > 0 {
            proof {
                assert(rest.skip(w as int) =~= s@.skip(i + w));
            }
            if cur.len() > 0 {
                let ghost old_done = done@;
                let ghost c = cur@;
                done.push(cur);
                cur = Vec::new();
                proof {
                    assert(vecs_view(done@) =~= vecs_view(old_done).push(c));
                    assert(vecs_view(old_done) + (seq![c] + fields_from(s@.skip(i + w), Seq::empty()))
                        =~= vecs_view(done@) + fields_from(s@.skip(i + w), cur@));
                }
            } else {
                proof {
                    assert(cur@ =~= Seq::<u8>::empty());
                }
            }
            i = i + w;
        } else {
            let ghost c = cur@;
            cur.push(s[i]);
            proof {
                assert(rest.skip(1) =~= s@.skip(i + 1));
                assert(cur@ == c.push(rest[0]));
            }
            i = i + 1;
        }
    }
    proof {
        assert(s@.skip(i as int) =~= Seq::<u8>::empty());
    }
    if cur.len() > 0 {
        let ghost old_done = done@;
        let ghost c = cur@;
        done.push(cur);
        proof {
            assert(vecs_view(done@) =~= vecs_view(old_done) + seq![c]);
        }
    } else {
        proof {
            assert(vecs_view(done@) + Seq::<Seq<u8>>::empty() =~= vecs_view(done@));
        }
    }
    done
}
} // verus!
