use vstd::prelude::*;

verus! {

/// The side a piece belongs to; White moves first.
#[derive(Clone, Copy, PartialEq, Eq, Debug, Structural)]
pub enum Color {
    White,
    Black,
}

/// The six kinds of chess pieces, in the order used to index bitboards.
#[derive(Clone, Copy, PartialEq, Eq, Debug, Structural)]
pub enum Piece {
    Pawn,
    Knight,
    Bishop,
    Rook,
    Queen,
    King,
}

impl Color {
    /// Index of the colour in per-colour tables: White 0, Black 1.
    pub open spec fn spec_index(self) -> int {
        match self {
            Color::White => 0,
            Color::Black => 1,
        }
    }

    pub open spec fn opposite(self) -> Color {
        match self {
            Color::White => Color::Black,
            Color::Black => Color::White,
        }
    }

    /// Index of the colour in per-colour tables.
    pub fn index(self) -> (r: usize)
        ensures
            r == self.spec_index(),
    {
        match self {
            Color::White => 0,
            Color::Black => 1,
        }
    }

    /// The other colour.
    pub fn flip(self) -> (r: Color)
        ensures
            r == self.opposite(),
    {
        match self {
            Color::White => Color::Black,
            Color::Black => Color::White,
        }
    }
}

impl From<bool> for Color {
    /// `true` (a lowercase letter in FEN) is Black, `false` is White.
    fn from(value: bool) -> (r: Color) {
        if value {
            Color::Black
        } else {
            Color::White
        }
    }
}

impl vstd::std_specs::convert::FromSpecImpl<bool> for Color {
    open spec fn obeys_from_spec() -> bool {
        true
    }

    open spec fn from_spec(v: bool) -> Color {
        if v {
            Color::Black
        } else {
            Color::White
        }
    }
}

impl Piece {
    /// Index of the piece kind in per-piece tables (Pawn 0 .. King 5).
    pub open spec fn spec_index(self) -> int {
        match self {
            Piece::Pawn => 0,
            Piece::Knight => 1,
            Piece::Bishop => 2,
            Piece::Rook => 3,
            Piece::Queen => 4,
            Piece::King => 5,
        }
    }

    pub open spec fn spec_from_index(i: int) -> Piece {
        if i == 0 {
            Piece::Pawn
        } else if i == 1 {
            Piece::Knight
        } else if i == 2 {
            Piece::Bishop
        } else if i == 3 {
            Piece::Rook
        } else if i == 4 {
            Piece::Queen
        } else {
            Piece::King
        }
    }

    /// Index of the piece kind in per-piece tables.
    pub fn index(self) -> (r: usize)
        ensures
            r == self.spec_index(),
            r < 6,
    {
        match self {
            Piece::Pawn => 0,
            Piece::Knight => 1,
            Piece::Bishop => 2,
            Piece::Rook => 3,
            Piece::Queen => 4,
            Piece::King => 5,
        }
    }

    /// The piece kind with the given table index.
    pub fn from_index(i: usize) -> (r: Piece)
        requires
            i < 6,
        ensures
            r == Piece::spec_from_index(i as int),
            r.spec_index() == i,
    {
        if i == 0 {
            Piece::Pawn
        } else if i == 1 {
            Piece::Knight
        } else if i == 2 {
            Piece::Bishop
        } else if i == 3 {
            Piece::Rook
        } else if i == 4 {
            Piece::Queen
        } else {
            Piece::King
        }
    }
}

pub proof fn lemma_piece_index_injective(a: Piece, b: Piece)
    ensures
        a.spec_index() == b.spec_index() <==> a == b,
        0 <= a.spec_index() < 6,
        Piece::spec_from_index(a.spec_index()) == a,
{
}

} // verus!
