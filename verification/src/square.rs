use vstd::prelude::*;
use crate::bits::bit;
use crate::text::{ascii_chars, all_ascii, ascii_string};

verus! {

/// A square of the 64-square board, numbered `rank * 8 + file` from a1 = 0 to h8 = 63.
#[derive(Clone, Copy, PartialEq, Eq, Debug, Structural)]
pub struct Sq64(pub u8);

/// A square in 0x88 numbering (`rank * 16 + file`); off-board squares have a bit of 0x88 set.
#[derive(Clone, Copy, PartialEq, Eq, Debug, Structural)]
pub struct Sq88(pub u8);

pub proof fn lemma_rank_file(x: u8)
    ensures
        x >> 3u8 == x / 8,
        x & 7u8 == x % 8,
        x & !7u8 == 8 * (x / 8),
        x & 0x88u8 == 0 ==> x <= 0x77,
{
    assert(x >> 3u8 == x / 8 && x & 7u8 == x % 8 && x & !7u8 == x - x % 8 && (x & 0x88u8 == 0 ==> x <= 0x77)) by (bit_vector);
}

impl Sq64 {
    pub open spec fn valid(self) -> bool {
        self.0 < 64
    }

    /// The square a two-byte name such as `e4` stands for.
    pub open spec fn spec_from_notation(s: Seq<u8>) -> Option<Sq64> {
        if s.len() == 2 && 97 <= s[0] <= 104 && 49 <= s[1] <= 56 {
            Some(Sq64(((s[0] - 97) + (s[1] - 49) * 8) as u8))
        } else {
            None
        }
    }

    /// Parses a square such as `e4` from its two bytes (file `a`-`h`, rank `1`-`8`).
    pub fn from_notation(notation: &[u8]) -> (r: Option<Sq64>)
        ensures
            r == Sq64::spec_from_notation(notation@),
            r matches Some(sq) ==> sq.valid(),
    {
        if notation.len() != 2 {
            return None;
        }
        if !(97 <= notation[0] && notation[0] <= 104) {
            return None;
        }
        if !(49 <= notation[1] && notation[1] <= 56) {
            return None;
        }
        Some(Sq64((notation[0] - 97) + ((notation[1] - 49) * 8)))
    }

    /// The rank (row) of the square, 0 for rank 1.
    pub fn rank(self) -> (r: u8)
        ensures
            r == self.0 / 8,
    {
        proof {
            lemma_rank_file(self.0);
        }
        self.0 >> 3
    }

    /// The file (column) of the square, 0 for file a.
    pub fn file(self) -> (r: u8)
        ensures
            r == self.0 % 8,
    {
        proof {
            lemma_rank_file(self.0);
        }
        self.0 & 7
    }

    /// The bitboard with only this square set.
    pub fn mask(self) -> (r: u64)
        requires
            self.valid(),
        ensures
            r == 1u64 << (self.0 as u64),
    {
        1u64 << self.0
    }

    /// Whether this square is set on the bitboard `bb`.
    pub fn is_on_bb(self, bb: u64) -> (r: bool)
        requires
            self.valid(),
        ensures
            r == bit(bb, self.0 as u64),
    {
        (bb >> self.0) & 1 == 1
    }

    /// The square as an index into 64-entry tables.
    pub fn ind(self) -> (r: usize)
        ensures
            r == self.0,
    {
        self.0 as usize
    }

    /// The square `delta` steps further along the numbering, wrapping modulo 256.
    pub fn offset(self, delta: i8) -> (r: Sq64)
        ensures
            r.0 == vstd::wrapping::u8_specs::wrapping_add_signed(self.0, delta),
            0 <= self.0 + delta < 256 ==> r.0 == self.0 + delta,
    {
        Sq64(self.0.wrapping_add_signed(delta))
    }

    /// The same square in 0x88 numbering.
    pub fn to_sq88(self) -> (r: Sq88)
        requires
            self.valid(),
        ensures
            r.0 == 16 * (self.0 / 8) + self.0 % 8,
            r.is_on(),
    {
        proof {
            lemma_rank_file(self.0);
            lemma_sq88_on_board((self.0 / 8) as u8, (self.0 % 8) as u8);
        }
        Sq88(self.0 + (self.0 & !7))
    }

    /// The square's name, such as `e4`.
    pub fn to_string(self) -> (s: String)
        requires
            self.valid(),
        ensures
            s@ == ascii_chars(seq![(97 + self.0 % 8) as u8, (49 + self.0 / 8) as u8]),
    {
        let mut v: Vec<u8> = Vec::new();
        v.push(97 + self.file());
        v.push(49 + self.rank());
        ascii_string(v)
    }
}

pub proof fn lemma_sq88_on_board(r: u8, f: u8)
    requires
        r < 8,
        f < 8,
    ensures
        (16 * r + f) as u8 & 0x88u8 == 0,
        (((16 * r + f) as u8 + (((16 * r + f) as u8) & 7u8)) as u8) >> 1u8 == 8 * r + f,
{
    assert(r < 8 && f < 8 ==> ((16 * r + f) as u8 & 0x88u8 == 0) && ((((16 * r + f) as u8 + (((16 * r + f) as u8) & 7u8)) as u8) >> 1u8 == 8 * r + f)) by (bit_vector);
}

impl Sq88 {
    pub open spec fn is_on(self) -> bool {
        self.0 & 0x88u8 == 0
    }

    /// Whether the 0x88 square lies on the board.
    pub fn is_on_board(self) -> (r: bool)
        ensures
            r == self.is_on(),
    {
        (self.0 & 0x88) == 0
    }

    /// The same square in 64-square numbering.
    pub fn to_sq64(self) -> (r: Sq64)
        requires
            self.0 + (self.0 & 7u8) <= 255,
        ensures
            r.0 == (self.0 + (self.0 & 7u8)) / 2,
            self.is_on() ==> r.0 == 8 * (self.0 / 16) + self.0 % 16 && r.0 < 64,
    {
        proof {
            let x = self.0;
            assert(x & 0x88u8 == 0 ==> x / 16 < 8 && x % 16 < 8 && x == 16 * (x / 16) + x % 16) by (bit_vector);
            if x & 0x88u8 == 0 {
                lemma_sq88_on_board((x / 16) as u8, (x % 16) as u8);
            }
            assert((x + (x & 7u8)) as u8 >> 1u8 == (x + (x & 7u8)) / 2) by (bit_vector)
                requires x + (x & 7u8) <= 255;
        }
        Sq64((self.0 + (self.0 & 7)) >> 1)
    }

    /// The square `offset` steps away in 0x88 numbering, wrapping modulo 256.
    pub fn step(self, offset: i8) -> (r: Sq88)
        ensures
            r.0 == vstd::wrapping::u8_specs::wrapping_add_signed(self.0, offset),
    {
        Sq88(self.0.wrapping_add_signed(offset))
    }
}

/// Law: reading back the name that `to_string` gives a square gives the square.
pub proof fn law_square_name_roundtrip(sq: Sq64)
    requires
        sq.valid(),
    ensures
        Sq64::spec_from_notation(seq![(97 + sq.0 % 8) as u8, (49 + sq.0 / 8) as u8]) == Some(sq),
{
}

} // verus!
