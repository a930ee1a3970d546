use vstd::prelude::*;
use crate::piece::Piece;
use crate::square::Sq64;
use crate::text::{ascii_chars, ascii_string};

verus! {

/// A move packed into 16 bits: bits 0-5 the source square, bits 6-11 the target
/// square, bits 12-15 the flag code (see `MoveFlag`).
#[derive(Clone, Copy, PartialEq, Eq, Debug, Structural)]
pub struct Move(pub u16);

/// The kind of a move, stored in the top four bits of a `Move`.
/// Codes: Quiet 0, DoublePawnPush 1, CastleKingside 2, CastleQueenside 3, Capture 4,
/// EnPassant 5, PromoKnight..PromoQueen 8-11, PromoKnightCapture..PromoQueenCapture 12-15.
#[derive(Clone, Copy, PartialEq, Eq, Debug, Structural)]
pub enum MoveFlag {
    Quiet,
    DoublePawnPush,
    CastleKingside,
    CastleQueenside,
    Capture,
    EnPassant,
    PromoKnight,
    PromoBishop,
    PromoRook,
    PromoQueen,
    PromoKnightCapture,
    PromoBishopCapture,
    PromoRookCapture,
    PromoQueenCapture,
}

/// Whether `code` is the code of some `MoveFlag` (6 and 7 are unused).
pub open spec fn valid_flag_code(code: int) -> bool {
    0 <= code < 16 && code != 6 && code != 7
}

impl MoveFlag {
    pub open spec fn spec_code(self) -> u16 {
        match self {
            MoveFlag::Quiet => 0,
            MoveFlag::DoublePawnPush => 1,
            MoveFlag::CastleKingside => 2,
            MoveFlag::CastleQueenside => 3,
            MoveFlag::Capture => 4,
            MoveFlag::EnPassant => 5,
            MoveFlag::PromoKnight => 8,
            MoveFlag::PromoBishop => 9,
            MoveFlag::PromoRook => 10,
            MoveFlag::PromoQueen => 11,
            MoveFlag::PromoKnightCapture => 12,
            MoveFlag::PromoBishopCapture => 13,
            MoveFlag::PromoRookCapture => 14,
            MoveFlag::PromoQueenCapture => 15,
        }
    }

    pub open spec fn spec_from_code(code: u16) -> MoveFlag {
        if code == 0 {
            MoveFlag::Quiet
        } else if code == 1 {
            MoveFlag::DoublePawnPush
        } else if code == 2 {
            MoveFlag::CastleKingside
        } else if code == 3 {
            MoveFlag::CastleQueenside
        } else if code == 4 {
            MoveFlag::Capture
        } else if code == 5 {
            MoveFlag::EnPassant
        } else if code == 8 {
            MoveFlag::PromoKnight
        } else if code == 9 {
            MoveFlag::PromoBishop
        } else if code == 10 {
            MoveFlag::PromoRook
        } else if code == 11 {
            MoveFlag::PromoQueen
        } else if code == 12 {
            MoveFlag::PromoKnightCapture
        } else if code == 13 {
            MoveFlag::PromoBishopCapture
        } else if code == 14 {
            MoveFlag::PromoRookCapture
        } else {
            MoveFlag::PromoQueenCapture
        }
    }

    /// Whether the flag marks a promotion (bit 3 of the code).
    pub open spec fn spec_is_promotion(self) -> bool {
        self.spec_code() >= 8
    }

    /// Whether the flag marks a capture (bit 2 of the code).
    pub open spec fn spec_is_capture(self) -> bool {
        self.spec_code() == 4 || self.spec_code() == 5 || self.spec_code() >= 12
    }

    /// The piece a promotion flag promotes to (from the low two bits of the code).
    pub open spec fn spec_promoted_piece(self) -> Piece {
        let low = self.spec_code() % 4;
        if low == 0 {
            Piece::Knight
        } else if low == 1 {
            Piece::Bishop
        } else if low == 2 {
            Piece::Rook
        } else {
            Piece::Queen
        }
    }

    /// The flag's code, as stored in bits 12-15 of a move.
    pub fn code(self) -> (r: u16)
        ensures
            r == self.spec_code(),
            valid_flag_code(r as int),
            MoveFlag::spec_from_code(r) == self,
    {
        match self {
            MoveFlag::Quiet => 0,
            MoveFlag::DoublePawnPush => 1,
            MoveFlag::CastleKingside => 2,
            MoveFlag::CastleQueenside => 3,
            MoveFlag::Capture => 4,
            MoveFlag::EnPassant => 5,
            MoveFlag::PromoKnight => 8,
            MoveFlag::PromoBishop => 9,
            MoveFlag::PromoRook => 10,
            MoveFlag::PromoQueen => 11,
            MoveFlag::PromoKnightCapture => 12,
            MoveFlag::PromoBishopCapture => 13,
            MoveFlag::PromoRookCapture => 14,
            MoveFlag::PromoQueenCapture => 15,
        }
    }

    /// The flag with the given code.
    pub fn from_code(code: u16) -> (r: MoveFlag)
        requires
            valid_flag_code(code as int),
        ensures
            r == MoveFlag::spec_from_code(code),
            r.spec_code() == code,
    {
        if code == 0 {
            MoveFlag::Quiet
        } else if code == 1 {
            MoveFlag::DoublePawnPush
        } else if code == 2 {
            MoveFlag::CastleKingside
        } else if code == 3 {
            MoveFlag::CastleQueenside
        } else if code == 4 {
            MoveFlag::Capture
        } else if code == 5 {
            MoveFlag::EnPassant
        } else if code == 8 {
            MoveFlag::PromoKnight
        } else if code == 9 {
            MoveFlag::PromoBishop
        } else if code == 10 {
            MoveFlag::PromoRook
        } else if code == 11 {
            MoveFlag::PromoQueen
        } else if code == 12 {
            MoveFlag::PromoKnightCapture
        } else if code == 13 {
            MoveFlag::PromoBishopCapture
        } else if code == 14 {
            MoveFlag::PromoRookCapture
        } else {
            MoveFlag::PromoQueenCapture
        }
    }

    /// The quiet promotion to `p`, which must be a knight, bishop, rook or queen.
    pub fn new_promotion(p: Piece) -> (r: MoveFlag)
        requires
            p == Piece::Knight || p == Piece::Bishop || p == Piece::Rook || p == Piece::Queen,
        ensures
            r.spec_is_promotion(),
            !r.spec_is_capture(),
            r.spec_promoted_piece() == p,
    {
        match p {
            Piece::Knight => MoveFlag::PromoKnight,
            Piece::Bishop => MoveFlag::PromoBishop,
            Piece::Rook => MoveFlag::PromoRook,
            _ => MoveFlag::PromoQueen,
        }
    }

    /// The capturing promotion to `p`, which must be a knight, bishop, rook or queen.
    pub fn new_promotion_capture(p: Piece) -> (r: MoveFlag)
        requires
            p == Piece::Knight || p == Piece::Bishop || p == Piece::Rook || p == Piece::Queen,
        ensures
            r.spec_is_promotion(),
            r.spec_is_capture(),
            r.spec_promoted_piece() == p,
    {
        match p {
            Piece::Knight => MoveFlag::PromoKnightCapture,
            Piece::Bishop => MoveFlag::PromoBishopCapture,
            Piece::Rook => MoveFlag::PromoRookCapture,
            _ => MoveFlag::PromoQueenCapture,
        }
    }

    /// Whether this flag is one of the eight promotions.
    pub fn is_promotion(self) -> (r: bool)
        ensures
            r == self.spec_is_promotion(),
    {
        let c = self.code();
        proof {
            assert(valid_flag_code(c as int) ==> ((c & 8u16 != 0) == (c >= 8))) by (bit_vector);
        }
        c & 8 != 0
    }

    /// Whether this flag captures (plain, en passant or promoting captures).
    pub fn is_capture(self) -> (r: bool)
        ensures
            r == self.spec_is_capture(),
    {
        let c = self.code();
        proof {
            assert(valid_flag_code(c as int) ==> ((c & 4u16 != 0) == (c == 4 || c == 5 || c >= 12)))
                by (bit_vector);
        }
        c & 4 != 0
    }

    /// The piece a promotion promotes to (read from the low two bits of the code).
    pub fn promoted_piece(self) -> (r: Piece)
        ensures
            r == self.spec_promoted_piece(),
            r == Piece::Knight || r == Piece::Bishop || r == Piece::Rook || r == Piece::Queen,
    {
        let c = self.code();
        proof {
            assert((c & 3u16) == c % 4) by (bit_vector);
        }
        let low = c & 3;
        if low == 0 {
            Piece::Knight
        } else if low == 1 {
            Piece::Bishop
        } else if low == 2 {
            Piece::Rook
        } else {
            Piece::Queen
        }
    }
}

/// The source square bits of a packed move.
pub open spec fn move_source(m: u16) -> u8 {
    (m & 0x3Fu16) as u8
}

/// The target square bits of a packed move.
pub open spec fn move_target(m: u16) -> u8 {
    ((m >> 6u16) & 0x3Fu16) as u8
}

/// The flag code bits of a packed move.
pub open spec fn move_code(m: u16) -> u16 {
    m >> 12u16
}

/// The source and target squares of any packed move are on the board, and its code is below 16.
pub proof fn lemma_move_squares(m: Move)
    ensures
        move_source(m.0) < 64,
        move_target(m.0) < 64,
        move_code(m.0) < 16,
        m.0 == move_source(m.0) + 64 * move_target(m.0) + 4096 * move_code(m.0),
{
    let x = m.0;
    assert((x & 0x3Fu16) < 64 && ((x >> 6u16) & 0x3Fu16) < 64 && (x >> 12u16) < 16 && x == (x & 0x3Fu16) + 64
        * ((x >> 6u16) & 0x3Fu16) + 4096 * (x >> 12u16)) by (bit_vector);
}

/// A move is fixed by its source, target and flag.
pub proof fn lemma_move_eq(a: Move, b: Move)
    requires
        a.has_valid_flag(),
        b.has_valid_flag(),
        a.from_sq() == b.from_sq(),
        a.to_sq() == b.to_sq(),
        a.flag() == b.flag(),
    ensures
        a == b,
{
    lemma_move_squares(a);
    lemma_move_squares(b);
    assert(move_code(a.0) == move_code(b.0));
}

/// Packing a source, target and code and reading them back gives the same values.
pub proof fn lemma_move_pack(from: u8, to: u8, code: u16)
    requires
        from < 64,
        to < 64,
        code < 16,
    ensures
        ({
            let m = (from as u16 | ((to as u16) << 6u16) | (code << 12u16)) as u16;
            move_source(m) == from && move_target(m) == to && move_code(m) == code
        }),
        ({
            let m = (from as u16 | ((to as u16) << 6u16)) as u16;
            move_source(m) == from && move_target(m) == to && move_code(m) == 0
        }),
{
    let f = from as u16;
    let t = to as u16;
    assert((f < 64 && t < 64 && code < 16 ==> ((((f | (t << 6u16) | (code << 12u16)) & 0x3Fu16) == f)
        && ((((f | (t << 6u16) | (code << 12u16)) >> 6u16) & 0x3Fu16) == t)
        && (((f | (t << 6u16) | (code << 12u16)) >> 12u16) == code)))
        && (f < 64 && t < 64 ==> ((((f | (t << 6u16)) & 0x3Fu16) == f)
        && ((((f | (t << 6u16)) >> 6u16) & 0x3Fu16) == t)
        && (((f | (t << 6u16)) >> 12u16) == 0)))) by (bit_vector);
}

impl Move {
    /// The move's source square.
    pub open spec fn from_sq(self) -> Sq64 {
        Sq64(move_source(self.0))
    }

    /// The move's target square.
    pub open spec fn to_sq(self) -> Sq64 {
        Sq64(move_target(self.0))
    }

    /// Whether the move's flag bits name a `MoveFlag`.
    pub open spec fn has_valid_flag(self) -> bool {
        valid_flag_code(move_code(self.0) as int)
    }

    /// The move's flag.
    pub open spec fn flag(self) -> MoveFlag {
        MoveFlag::spec_from_code(move_code(self.0))
    }

    /// A quiet move from `from` to `to`.
    pub fn new(from: Sq64, to: Sq64) -> (r: Move)
        ensures
            r.0 == (from.0 as u16 | ((to.0 as u16) << 6u16)),
            from.valid() && to.valid() ==> r.from_sq() == from && r.to_sq() == to && r.flag()
                == MoveFlag::Quiet && r.has_valid_flag(),
    {
        proof {
            if from.valid() && to.valid() {
                lemma_move_pack(from.0, to.0, 0);
            }
        }
        Move((from.0 as u16) | ((to.0 as u16) << 6))
    }

    /// A move from `from` to `to` with the given flag.
    pub fn new_flags(from: Sq64, to: Sq64, flags: MoveFlag) -> (r: Move)
        ensures
            r.0 == (from.0 as u16 | ((to.0 as u16) << 6u16) | (flags.spec_code() << 12u16)),
            from.valid() && to.valid() ==> r.from_sq() == from && r.to_sq() == to && r.flag()
                == flags && r.has_valid_flag(),
    {
        let code = flags.code();
        proof {
            if from.valid() && to.valid() {
                lemma_move_pack(from.0, to.0, code);
            }
        }
        Move((from.0 as u16) | ((to.0 as u16) << 6) | (code << 12))
    }

    /// The move's flag; the flag bits must hold a valid code.
    pub fn flags(self) -> (r: MoveFlag)
        requires
            self.has_valid_flag(),
        ensures
            r == self.flag(),
    {
        MoveFlag::from_code(self.0 >> 12)
    }

    /// The move's target square.
    pub fn target(self) -> (r: Sq64)
        ensures
            r == self.to_sq(),
            r.valid(),
    {
        proof {
            lemma_move_squares(self);
        }
        Sq64(((self.0 >> 6) & 0x3F) as u8)
    }

    /// The move's source square.
    pub fn source(self) -> (r: Sq64)
        ensures
            r == self.from_sq(),
            r.valid(),
    {
        proof {
            lemma_move_squares(self);
        }
        Sq64((self.0 & 0x3F) as u8)
    }

    /// The bytes of the move in UCI notation (see `uci_bytes`).
    pub fn to_uci_bytes(self) -> (v: Vec<u8>)
        requires
            self.has_valid_flag(),
        ensures
            v@ == uci_bytes(self),
    {
        let from = self.source();
        let to = self.target();
        let mut v: Vec<u8> = Vec::new();
        v.push(97 + from.file());
        v.push(49 + from.rank());
        v.push(97 + to.file());
        v.push(49 + to.rank());
        let f = self.flags();
        if f.is_promotion() {
            let c: u8 = match f.promoted_piece() {
                Piece::Knight => 110,
                Piece::Bishop => 98,
                Piece::Rook => 114,
                _ => 113,
            };
            v.push(c);
        }
        proof {
            assert(v@ =~= uci_bytes(self));
        }
        v
    }

    /// The move in UCI notation: source and target square, then the promotion
    /// piece letter (`n`, `b`, `r`, `q`) for promotions.
    pub fn to_string(self) -> (s: String)
        requires
            self.has_valid_flag(),
        ensures
            s@ == ascii_chars(uci_bytes(self)),
    {
        let v = self.to_uci_bytes();
        proof {
            lemma_move_squares(self);
        }
        ascii_string(v)
    }
}

/// The letter of a promotion piece in UCI notation: `n`, `b`, `r` or `q`.
pub open spec fn promo_letter(p: Piece) -> u8 {
    match p {
        Piece::Knight => 110,
        Piece::Bishop => 98,
        Piece::Rook => 114,
        _ => 113,
    }
}

/// The bytes of a move in UCI notation (e.g. `e2e4`, `e7e8q`).
pub open spec fn uci_bytes(m: Move) -> Seq<u8> {
    let from = move_source(m.0);
    let to = move_target(m.0);
    let base = seq![(97 + from % 8) as u8, (49 + from / 8) as u8, (97 + to % 8) as u8, (49 + to / 8) as u8];
    if m.flag().spec_is_promotion() {
        base.push(promo_letter(m.flag().spec_promoted_piece()))
    } else {
        base
    }
}

/// Law: the UCI text of a move is four bytes, two square names, and a promotion adds a
/// fifth: the lowercase letter that, read as a FEN piece letter, names the piece
/// promoted to (`n` a knight, `b` a bishop, `r` a rook, `q` a queen).
pub proof fn law_promotion_letter(m: Move)
    requires
        m.has_valid_flag(),
    ensures
        !m.flag().spec_is_promotion() ==> uci_bytes(m).len() == 4,
        m.flag().spec_is_promotion() ==> {
            &&& uci_bytes(m).len() == 5
            &&& crate::fen::letter_piece(uci_bytes(m)[4]) == Some(m.flag().spec_promoted_piece())
            &&& crate::fen::letter_color(uci_bytes(m)[4]) == crate::piece::Color::Black
        },
        m.flag().spec_is_promotion() && m.flag().spec_promoted_piece() == Piece::Knight ==> uci_bytes(m)[4] == 110u8,
        m.flag().spec_is_promotion() && m.flag().spec_promoted_piece() == Piece::Bishop ==> uci_bytes(m)[4] == 98u8,
        m.flag().spec_is_promotion() && m.flag().spec_promoted_piece() == Piece::Rook ==> uci_bytes(m)[4] == 114u8,
        m.flag().spec_is_promotion() && m.flag().spec_promoted_piece() == Piece::Queen ==> uci_bytes(m)[4] == 113u8,
{
}

} // verus!
