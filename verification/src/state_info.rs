use vstd::prelude::*;
use crate::piece::{Color, Piece};
use crate::square::Sq64;
use crate::moves::Move;

verus! {

/// Why a FEN string was refused.
#[derive(Clone, Copy, PartialEq, Eq, Debug, Structural)]
pub enum FenErr {
    /// The FEN does not have exactly six whitespace-separated fields.
    InvalidFormat,
    /// The piece placement holds a character that is no piece letter, digit or `/`.
    InvalidCharInPiecePlacement,
    /// A rank does not describe exactly eight squares.
    InvalidRankLength,
    /// The placement does not describe exactly eight ranks.
    InvalidRankCount,
    /// The side to move is neither `w` nor `b`.
    InvalidSideToMove,
    /// The halfmove clock is not a number from 0 to 49.
    InvalidHalfmoveClock,
    /// The fullmove number is not a number that fits in 32 bits.
    InvalidFullmoveNumber,
    /// The en passant square is neither `-` nor a square on rank 3 or 6.
    InvalidSquare,
    /// The castling field is neither `-` nor made of the letters `KQkq`, each at most once.
    InvalidCastleRights,
}

/// Castling right bits: White kingside 8, White queenside 4, Black kingside 2, Black queenside 1.
pub const WHITE_KINGSIDE: u8 = 0b1000;
pub const WHITE_QUEENSIDE: u8 = 0b0100;
pub const BLACK_KINGSIDE: u8 = 0b0010;
pub const BLACK_QUEENSIDE: u8 = 0b0001;

/// Everything about a position besides the placement of the pieces.
#[derive(Clone, Copy, PartialEq, Eq, Debug, Structural)]
pub struct StateInfo {
    /// Castling rights, one bit each (see `WHITE_KINGSIDE` and the others).
    pub castle_rights: u8,
    pub active_color: Color,
    pub half_move_clock: u8,
    pub full_move_number: u32,
    pub ep_square: Option<Sq64>,
}

/// What `BoardState::make_move` needs to take a move back.
#[derive(Clone, Copy, PartialEq, Eq, Debug, Structural)]
pub struct Undo {
    pub mv: Move,
    pub captured_piece: Option<Piece>,
    pub prev_halfmove_clock: u8,
    pub prev_castling_rights: u8,
    pub prev_ep_square: Option<Sq64>,
}

impl Undo {
    /// The record for move `m` made from the state `state_info`, with no capture yet.
    pub fn new(m: Move, state_info: &StateInfo) -> (r: Undo)
        ensures
            r == (Undo {
                mv: m,
                captured_piece: None,
                prev_halfmove_clock: state_info.half_move_clock,
                prev_castling_rights: state_info.castle_rights,
                prev_ep_square: state_info.ep_square,
            }),
    {
        Undo {
            mv: m,
            captured_piece: None,
            prev_halfmove_clock: state_info.half_move_clock,
            prev_castling_rights: state_info.castle_rights,
            prev_ep_square: state_info.ep_square,
        }
    }
}

/// Bit position of a castling right in `castle_rights`.
pub open spec fn castle_offset(color: Color, is_short: bool) -> u8 {
    ((match color {
        Color::Black => 0int,
        Color::White => 2int,
    }) + if is_short { 1int } else { 0int }) as u8
}

/// Clearing bits keeps a castling-rights value below 16.
proof fn lemma_clear_small(a: u8, m: u8)
    ensures
        a < 16 ==> a & !m < 16,
{
    assert(a < 16 ==> a & !m < 16) by (bit_vector);
}

/// The castling bit cleared when a rook leaves or is captured on corner `sq`.
pub open spec fn corner_mask(sq: u8) -> u8 {
    if sq == 0 {
        WHITE_QUEENSIDE
    } else if sq == 7 {
        WHITE_KINGSIDE
    } else if sq == 56 {
        BLACK_QUEENSIDE
    } else if sq == 63 {
        BLACK_KINGSIDE
    } else {
        0
    }
}

/// Both castling bits of `color`.
pub open spec fn color_castle_mask(color: Color) -> u8 {
    match color {
        Color::Black => 0b0011u8,
        Color::White => 0b1100u8,
    }
}

impl StateInfo {
    /// Castling rights fit in four bits and the en passant square is on the board.
    pub open spec fn wf(self) -> bool {
        &&& self.castle_rights < 16
        &&& (self.ep_square matches Some(sq) ==> sq.valid())
    }

    /// The state of the initial position.
    pub fn start_pos() -> (r: StateInfo)
        ensures
            r == (StateInfo {
                castle_rights: 15,
                active_color: Color::White,
                half_move_clock: 0,
                full_move_number: 1,
                ep_square: None,
            }),
            r.wf(),
    {
        StateInfo {
            castle_rights: 15,
            active_color: Color::White,
            half_move_clock: 0,
            full_move_number: 1,
            ep_square: None,
        }
    }

    /// Whether `color` may still castle short (`is_short`) or long.
    pub fn has_castle_rights(&self, color: Color, is_short: bool) -> (r: bool)
        ensures
            r == ((self.castle_rights >> castle_offset(color, is_short)) & 1u8 == 1u8),
    {
        let mut offset: u8 = match color {
            Color::Black => 0,
            Color::White => 2,
        };
        if is_short {
            offset += 1;
        }
        (self.castle_rights >> offset) & 0x1 == 1
    }

    /// Drops the castling right tied to a rook on corner `sq` (no change elsewhere).
    pub fn clear_corner_castle_rights(&mut self, sq: Sq64)
        ensures
            *final(self) == (StateInfo {
                castle_rights: old(self).castle_rights & !corner_mask(sq.0),
                ..*old(self)
            }),
            old(self).wf() ==> final(self).wf(),
    {
        let mask: u8 = if sq.0 == 0 {
            WHITE_QUEENSIDE
        } else if sq.0 == 7 {
            WHITE_KINGSIDE
        } else if sq.0 == 56 {
            BLACK_QUEENSIDE
        } else if sq.0 == 63 {
            BLACK_KINGSIDE
        } else {
            0
        };
        self.castle_rights = self.castle_rights & !mask;
        proof {
            lemma_clear_small(old(self).castle_rights, mask);
        }
    }

    /// Drops both castling rights of `color`.
    pub fn remove_castle_rights(&mut self, color: Color)
        ensures
            *final(self) == (StateInfo {
                castle_rights: old(self).castle_rights & !color_castle_mask(color),
                ..*old(self)
            }),
            old(self).wf() ==> final(self).wf(),
    {
        let offset: u8 = match color {
            Color::Black => 0,
            Color::White => 2,
        };
        proof {
            assert((0b0011u8 << 0u8) == 0b0011u8 && (0b0011u8 << 2u8) == 0b1100u8) by (bit_vector);
        }
        self.castle_rights = self.castle_rights & !(0b0011u8 << offset);
        proof {
            lemma_clear_small(old(self).castle_rights, color_castle_mask(color));
        }
    }

    /// Restores the fields that `undo` recorded and hands the move back to the other side;
    /// the fullmove number goes back when Black's move is taken back.
    pub fn undo(&mut self, undo: &Undo)
        requires
            old(self).active_color == Color::White ==> old(self).full_move_number > 0,
        ensures
            *final(self) == (StateInfo {
                castle_rights: undo.prev_castling_rights,
                active_color: old(self).active_color.opposite(),
                half_move_clock: undo.prev_halfmove_clock,
                full_move_number: if old(self).active_color == Color::White {
                    (old(self).full_move_number - 1) as u32
                } else {
                    old(self).full_move_number
                },
                ep_square: undo.prev_ep_square,
            }),
    {
        self.ep_square = undo.prev_ep_square;
        self.castle_rights = undo.prev_castling_rights;
        self.half_move_clock = undo.prev_halfmove_clock;
        if self.active_color == Color::White {
            self.full_move_number -= 1;
        }
        self.active_color = self.active_color.flip();
    }
}

} // verus!
