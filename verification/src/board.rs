use vstd::prelude::*;
use crate::bits::{bit, lemma_bit_xor_single, lemma_bit_ext};
use crate::piece::{Color, Piece, lemma_piece_index_injective};
use crate::square::Sq64;
use crate::zobrist::{
    placement_hash, piece_key, piece_key_index, square_key, zobrist_key, lemma_hash_update,
};

verus! {

/// The content of a square: empty, or a piece of some colour.
pub type Cell = Option<(Color, Piece)>;

/// The pieces on the board, kept three ways: one bitboard per colour and piece kind,
/// occupancy bitboards (White, Black, both), and a per-square mailbox of piece kinds;
/// plus the Zobrist hash of the placement.
#[derive(Clone, Copy, PartialEq, Eq, Debug)]
pub struct Board {
    pieces: [u64; 12],
    occupancy: [u64; 3],
    mailbox: [Option<Piece>; 64],
    hash: u64,
}

pub open spec fn table_index(c: Color, p: Piece) -> int {
    c.spec_index() * 6 + p.spec_index()
}

impl Board {
    /// The bitboard of the pieces of kind `p` and colour `c`.
    pub closed spec fn piece_bb(self, c: Color, p: Piece) -> u64 {
        self.pieces@[table_index(c, p)]
    }

    /// The bitboard of all pieces of colour `c`.
    pub closed spec fn color_bb(self, c: Color) -> u64 {
        self.occupancy@[c.spec_index()]
    }

    /// The bitboard of all pieces.
    pub closed spec fn all_bb(self) -> u64 {
        self.occupancy@[2]
    }

    /// The piece kind recorded for square `i` in the mailbox.
    pub closed spec fn mailbox_at(self, i: int) -> Option<Piece> {
        self.mailbox@[i]
    }

    /// The stored Zobrist hash.
    pub closed spec fn hash_value(self) -> u64 {
        self.hash
    }

    /// The content of each of the 64 squares: the mailbox's piece kind, coloured Black
    /// where the Black occupancy bitboard has the square and White elsewhere.
    pub closed spec fn cells(self) -> Seq<Cell> {
        Seq::new(
            64,
            |i: int|
                match self.mailbox@[i] {
                    None => None,
                    Some(p) => Some(
                        (if bit(self.occupancy@[1], i as u64) {
                            Color::Black
                        } else {
                            Color::White
                        }, p),
                    ),
                },
        )
    }

    /// The three representations agree and the hash is that of the placement.
    pub open spec fn wf(self) -> bool {
        &&& self.cells().len() == 64
        &&& forall|i: u64, c: Color, p: Piece|
            i < 64 ==> (#[trigger] bit(self.piece_bb(c, p), i) <==> self.cells()[i as int] == Some(
                (c, p),
            ))
        &&& forall|i: u64, c: Color|
            i < 64 ==> (#[trigger] bit(self.color_bb(c), i) <==> (self.cells()[i as int] is Some
                && self.cells()[i as int].unwrap().0 == c))
        &&& forall|i: u64|
            i < 64 ==> (#[trigger] bit(self.all_bb(), i) <==> self.cells()[i as int] is Some)
        &&& self.hash_value() == placement_hash(self.cells())
    }

    pub proof fn lemma_cells_len(self)
        ensures
            self.cells().len() == 64,
    {
    }

    /// On a well-formed board the mailbox has a piece exactly where the square is occupied.
    pub proof fn lemma_mailbox_cells(self, i: int)
        requires
            0 <= i < 64,
        ensures
            (self.mailbox_at(i) is Some) == (self.cells()[i] is Some),
            self.cells()[i] is Some ==> self.mailbox_at(i) == Some(self.cells()[i].unwrap().1),
    {
    }

    proof fn lemma_cells_at(self, i: int)
        requires
            0 <= i < 64,
        ensures
            self.cells()[i] == (match self.mailbox@[i] {
                None => None,
                Some(p) => Some(
                    (if bit(self.occupancy@[1], i as u64) {
                        Color::Black
                    } else {
                        Color::White
                    }, p),
                ),
            }),
    {
    }

    /// Toggles `piece` of colour `color` on `sq` in the bitboards and the hash, and
    /// records `piece` in the mailbox. On a square that was empty this places the piece.
    pub fn place_piece(&mut self, sq: Sq64, color: Color, piece: Piece)
        requires
            sq.valid(),
        ensures
            forall|c: Color, p: Piece|
                #![trigger final(self).piece_bb(c, p)]
                final(self).piece_bb(c, p) == if c == color && p == piece {
                    old(self).piece_bb(c, p) ^ (1u64 << (sq.0 as u64))
                } else {
                    old(self).piece_bb(c, p)
                },
            forall|c: Color|
                #![trigger final(self).color_bb(c)]
                final(self).color_bb(c) == if c == color {
                    old(self).color_bb(c) ^ (1u64 << (sq.0 as u64))
                } else {
                    old(self).color_bb(c)
                },
            final(self).all_bb() == old(self).all_bb() ^ (1u64 << (sq.0 as u64)),
            final(self).mailbox_at(sq.0 as int) == Some(piece),
            forall|i: int| 0 <= i < 64 && i != sq.0 ==> #[trigger] final(self).mailbox_at(i) == old(self).mailbox_at(i),
            final(self).hash_value() == old(self).hash_value() ^ piece_key(color, piece, sq.0 as int),
            old(self).wf() && old(self).cells()[sq.0 as int] is None ==> final(self).wf()
                && final(self).cells() == old(self).cells().update(sq.0 as int, Some((color, piece))),
    {
        let mask = sq.mask();
        let k = color.index() * 6 + piece.index();
        let ci = color.index();
        self.pieces[k] = self.pieces[k] ^ mask;
        self.occupancy[ci] = self.occupancy[ci] ^ mask;
        self.occupancy[2] = self.occupancy[2] ^ mask;
        self.mailbox[sq.ind()] = Some(piece);
        let key = zobrist_key((ci * 384 + piece.index() * 64 + sq.ind()) as u64);
        self.hash = self.hash ^ key;
        proof {
            assert forall|c: Color, p: Piece|
                #![trigger self.piece_bb(c, p)]
                self.piece_bb(c, p) == if c == color && p == piece {
                    old(self).piece_bb(c, p) ^ (1u64 << (sq.0 as u64))
                } else {
                    old(self).piece_bb(c, p)
                } by {
                lemma_piece_index_injective(p, piece);
            }
            if old(self).wf() && old(self).cells()[sq.0 as int] is None {
                self.lemma_toggle_keeps_wf(*old(self), sq, color, piece, true);
            }
        }
    }

    /// Toggles `piece` of colour `color` on `sq` in the bitboards and the hash, and
    /// empties the mailbox entry. On a square holding that piece this removes it.
    pub fn remove_piece(&mut self, sq: Sq64, color: Color, piece: Piece)
        requires
            sq.valid(),
        ensures
            forall|c: Color, p: Piece|
                #![trigger final(self).piece_bb(c, p)]
                final(self).piece_bb(c, p) == if c == color && p == piece {
                    old(self).piece_bb(c, p) ^ (1u64 << (sq.0 as u64))
                } else {
                    old(self).piece_bb(c, p)
                },
            forall|c: Color|
                #![trigger final(self).color_bb(c)]
                final(self).color_bb(c) == if c == color {
                    old(self).color_bb(c) ^ (1u64 << (sq.0 as u64))
                } else {
                    old(self).color_bb(c)
                },
            final(self).all_bb() == old(self).all_bb() ^ (1u64 << (sq.0 as u64)),
            final(self).mailbox_at(sq.0 as int) == None::<Piece>,
            forall|i: int| 0 <= i < 64 && i != sq.0 ==> #[trigger] final(self).mailbox_at(i) == old(self).mailbox_at(i),
            final(self).hash_value() == old(self).hash_value() ^ piece_key(color, piece, sq.0 as int),
            old(self).wf() && old(self).cells()[sq.0 as int] == Some((color, piece)) ==> final(self).wf() && final(self).cells() == old(self).cells().update(sq.0 as int, None),
    {
        let mask = sq.mask();
        let k = color.index() * 6 + piece.index();
        let ci = color.index();
        self.pieces[k] = self.pieces[k] ^ mask;
        self.occupancy[ci] = self.occupancy[ci] ^ mask;
        self.occupancy[2] = self.occupancy[2] ^ mask;
        self.mailbox[sq.ind()] = None;
        let key = zobrist_key((ci * 384 + piece.index() * 64 + sq.ind()) as u64);
        self.hash = self.hash ^ key;
        proof {
            assert forall|c: Color, p: Piece|
                #![trigger self.piece_bb(c, p)]
                self.piece_bb(c, p) == if c == color && p == piece {
                    old(self).piece_bb(c, p) ^ (1u64 << (sq.0 as u64))
                } else {
                    old(self).piece_bb(c, p)
                } by {
                lemma_piece_index_injective(p, piece);
            }
            if old(self).wf() && old(self).cells()[sq.0 as int] == Some((color, piece)) {
                self.lemma_toggle_keeps_wf(*old(self), sq, color, piece, false);
            }
        }
    }

    proof fn lemma_toggle_keeps_wf(self, old_b: Board, sq: Sq64, color: Color, piece: Piece, placing: bool)
        requires
            sq.valid(),
            old_b.wf(),
            placing ==> old_b.cells()[sq.0 as int] is None,
            !placing ==> old_b.cells()[sq.0 as int] == Some((color, piece)),
            forall|c: Color, p: Piece|
                #![trigger self.piece_bb(c, p)]
                self.piece_bb(c, p) == if c == color && p == piece {
                    old_b.piece_bb(c, p) ^ (1u64 << (sq.0 as u64))
                } else {
                    old_b.piece_bb(c, p)
                },
            self.occupancy@[color.spec_index()] == old_b.occupancy@[color.spec_index()] ^ (1u64 << (
            sq.0 as u64)),
            self.occupancy@[color.opposite().spec_index()] == old_b.occupancy@[color.opposite().spec_index()],
            self.occupancy@[2] == old_b.occupancy@[2] ^ (1u64 << (sq.0 as u64)),
            self.mailbox@[sq.0 as int] == (if placing { Some(piece) } else { None::<Piece> }),
            forall|i: int| 0 <= i < 64 && i != sq.0 ==> self.mailbox@[i] == old_b.mailbox@[i],
            self.hash == old_b.hash ^ piece_key(color, piece, sq.0 as int),
        ensures
            self.wf(),
            self.cells() == old_b.cells().update(
                sq.0 as int,
                if placing { Some((color, piece)) } else { None },
            ),
    {
        let s = sq.0 as u64;
        let newcell: Cell = if placing { Some((color, piece)) } else { None };
        let target = old_b.cells().update(sq.0 as int, newcell);
        assert forall|i: int| 0 <= i < 64 implies #[trigger] self.cells()[i] == target[i] by {
            self.lemma_cells_at(i);
            old_b.lemma_cells_at(i);
            lemma_bit_xor_single(old_b.occupancy@[1], s, i as u64);
            assert(bit(old_b.all_bb(), i as u64) <==> old_b.cells()[i] is Some);
            assert(bit(old_b.color_bb(Color::Black), i as u64) <==> (old_b.cells()[i] is Some
                && old_b.cells()[i].unwrap().0 == Color::Black));
            if i == sq.0 {
                if placing {
                    assert(!bit(old_b.occupancy@[1], s));
                } else {
                    assert(bit(old_b.occupancy@[1], s) == (color == Color::Black));
                }
            }
        }
        assert(self.cells() =~= target);
        assert forall|i: u64, c: Color, p: Piece|
            i < 64 implies (#[trigger] bit(self.piece_bb(c, p), i) <==> self.cells()[i as int]
            == Some((c, p))) by {
            lemma_bit_xor_single(old_b.piece_bb(c, p), s, i);
            assert(bit(old_b.piece_bb(c, p), i) <==> old_b.cells()[i as int] == Some((c, p)));
            assert(bit(old_b.piece_bb(color, piece), i) <==> old_b.cells()[i as int] == Some((color, piece)));
        }
        assert forall|i: u64, c: Color|
            i < 64 implies (#[trigger] bit(self.color_bb(c), i) <==> (self.cells()[i as int] is Some
            && self.cells()[i as int].unwrap().0 == c)) by {
            lemma_bit_xor_single(old_b.color_bb(c), s, i);
            assert(bit(old_b.color_bb(c), i) <==> (old_b.cells()[i as int] is Some
                && old_b.cells()[i as int].unwrap().0 == c));
            assert(bit(old_b.all_bb(), i) <==> old_b.cells()[i as int] is Some);
        }
        assert forall|i: u64| i < 64 implies (#[trigger] bit(self.all_bb(), i) <==> self.cells()[i as int] is Some) by {
            lemma_bit_xor_single(old_b.all_bb(), s, i);
            assert(bit(old_b.all_bb(), i) <==> old_b.cells()[i as int] is Some);
        }
        lemma_hash_update(old_b.cells(), sq.0 as int, newcell, 64);
        let h = old_b.hash;
        let k = piece_key(color, piece, sq.0 as int);
        assert((h ^ k ^ 0u64) == (h ^ k) && (h ^ 0u64 ^ k) == (h ^ k)) by (bit_vector);
    }

    /// The board with no pieces.
    pub fn empty() -> (b: Board)
        ensures
            b.wf(),
            b.cells() == Seq::new(64, |i: int| None::<(Color, Piece)>),
    {
        let b = Board { pieces: [0u64; 12], occupancy: [0u64; 3], mailbox: [None; 64], hash: 0 };
        proof {
            assert forall|i: u64| #![trigger bit(0u64, i)] i < 64 implies !bit(0u64, i) by {
                crate::bits::lemma_bit_ops(0u64, 0u64, i);
            }
            let empty = Seq::new(64, |i: int| None::<(Color, Piece)>);
            assert(b.cells() =~= empty);
            assert forall|c: Color, p: Piece| #![trigger b.piece_bb(c, p)] b.piece_bb(c, p) == 0u64 by {
                lemma_piece_index_injective(p, p);
            }
            lemma_hash_empty(64);
        }
        b
    }

    /// Builds the board with the given content on each square.
    pub fn from_cells(cells: &[Cell; 64]) -> (b: Board)
        ensures
            b.wf(),
            b.cells() == cells@,
    {
        let mut b = Board::empty();
        let mut i: usize = 0;
        while i < 64
            invariant
                i <= 64,
                b.wf(),
                forall|j: int| 0 <= j < i ==> b.cells()[j] == cells@[j],
                forall|j: int| i <= j < 64 ==> b.cells()[j] is None,
            decreases 64 - i,
        {
            match cells[i] {
                Some((c, p)) => {
                    b.place_piece(Sq64(i as u8), c, p);
                },
                None => {},
            }
            i += 1;
        }
        assert(b.cells() =~= cells@);
        b
    }

    /// The bitboard of the pieces of kind `piece` and colour `color`.
    pub fn get_piece_bitboard(&self, color: Color, piece: Piece) -> (r: u64)
        ensures
            r == self.piece_bb(color, piece),
    {
        self.pieces[color.index() * 6 + piece.index()]
    }

    /// The bitboard of all pieces of colour `color`.
    pub fn get_color_occupancy(self, color: Color) -> (r: u64)
        ensures
            r == self.color_bb(color),
    {
        self.occupancy[color.index()]
    }

    /// The bitboard of all pieces.
    pub fn get_occupancy(self) -> (r: u64)
        ensures
            r == self.all_bb(),
    {
        self.occupancy[2]
    }

    /// Whether a piece stands on `sq`.
    pub fn is_occupied(&self, sq: Sq64) -> (r: bool)
        requires
            sq.valid(),
        ensures
            r == bit(self.all_bb(), sq.0 as u64),
            self.wf() ==> (r <==> self.cells()[sq.0 as int] is Some),
    {
        proof {
            if self.wf() {
                assert(bit(self.all_bb(), sq.0 as u64) <==> self.cells()[sq.0 as int] is Some);
            }
        }
        sq.is_on_bb(self.occupancy[2])
    }

    /// Whether a piece of the colour opposite to `color` stands on `sq`.
    pub fn is_occupied_enemy(&self, sq: Sq64, color: Color) -> (r: bool)
        requires
            sq.valid(),
        ensures
            r == bit(self.color_bb(color.opposite()), sq.0 as u64),
            self.wf() ==> (r <==> (self.cells()[sq.0 as int] is Some && self.cells()[sq.0 as int].unwrap().0
                == color.opposite())),
    {
        proof {
            if self.wf() {
                let c2 = color.opposite();
                assert(bit(self.color_bb(c2), sq.0 as u64) <==> (self.cells()[sq.0 as int] is Some
                    && self.cells()[sq.0 as int].unwrap().0 == c2));
            }
        }
        sq.is_on_bb(self.occupancy[color.flip().index()])
    }

    /// The kind of the piece on `sq`, which must hold a piece.
    pub fn get_piece_at(&self, sq: Sq64) -> (r: Piece)
        requires
            sq.valid(),
            self.mailbox_at(sq.0 as int) is Some,
        ensures
            self.mailbox_at(sq.0 as int) == Some(r),
            self.cells()[sq.0 as int] is Some && self.cells()[sq.0 as int].unwrap().1 == r,
    {
        self.mailbox[sq.ind()].unwrap()
    }

    /// The lowest square holding a king of colour `color` (square 64 when there is none).
    pub fn find_king(&self, color: Color) -> (r: Sq64)
        ensures
            r.0 == vstd::std_specs::bits::u64_trailing_zeros(self.piece_bb(color, Piece::King)),
            self.wf() ==> (r.valid() <==> self.has_piece(color, Piece::King)),
            self.wf() && r.valid() ==> self.cells()[r.0 as int] == Some((color, Piece::King))
                && forall|j: int| 0 <= j < r.0 ==> self.cells()[j] != Some((color, Piece::King)),
    {
        let bb = self.pieces[color.index() * 6 + 5];
        let tz = bb.trailing_zeros();
        proof {
            vstd::std_specs::bits::axiom_u64_trailing_zeros(bb);
            if self.wf() {
                if tz < 64 {
                    assert(bit(bb, tz as u64));
                    assert(bb == self.piece_bb(color, Piece::King));
                    assert forall|j: int| 0 <= j < tz implies self.cells()[j] != Some((color, Piece::King)) by {
                        assert((bb >> (j as u64)) & 1u64 == 0u64);
                        assert(!bit(bb, j as u64));
                        assert(bit(self.piece_bb(color, Piece::King), j as u64) <==> self.cells()[j] == Some((color, Piece::King)));
                    }
                } else {
                    assert(bb == self.piece_bb(color, Piece::King));
                    assert(bb == 0);
                    assert forall|j: int| 0 <= j < 64 implies self.cells()[j] != Some((color, Piece::King)) by {
                        assert(bit(self.piece_bb(color, Piece::King), j as u64) <==> self.cells()[j] == Some((color, Piece::King)));
                        crate::bits::lemma_bit_ops(0u64, 0u64, j as u64);
                        assert(!bit(bb, j as u64));
                    }
                }
            }
        }
        Sq64(tz as u8)
    }

    /// Whether some square holds a piece of kind `p` and colour `c`.
    pub open spec fn has_piece(self, c: Color, p: Piece) -> bool {
        exists|j: int| 0 <= j < 64 && self.cells()[j] == Some((c, p))
    }

    /// The Zobrist hash of the placement.
    pub fn hash(&self) -> (r: u64)
        ensures
            r == self.hash_value(),
    {
        self.hash
    }

    /// The bitboard of the pieces of colour `c`.
    pub fn occ_friendly(&self, c: Color) -> (r: u64)
        ensures
            r == self.color_bb(c),
    {
        self.occupancy[c.index()]
    }

    /// The bitboard of the pieces of the colour opposite to `c`.
    pub fn occ_enemy(&self, c: Color) -> (r: u64)
        ensures
            r == self.color_bb(c.opposite()),
    {
        self.occupancy[c.flip().index()]
    }

    /// The bitboard of all pieces.
    pub fn occ(&self) -> (r: u64)
        ensures
            r == self.all_bb(),
    {
        self.occupancy[2]
    }
}

impl Board {
    /// Two well-formed boards with the same pieces on the same squares are equal.
    pub proof fn lemma_board_ext(a: Board, b: Board)
        requires
            a.wf(),
            b.wf(),
            a.cells() == b.cells(),
        ensures
            a == b,
    {
        assert forall|k: int| 0 <= k < 12 implies a.pieces@[k] == b.pieces@[k] by {
            let c = if k < 6 { Color::White } else { Color::Black };
            let p = Piece::spec_from_index(if k < 6 { k } else { k - 6 });
            assert(table_index(c, p) == k);
            assert forall|i: u64| i < 64 implies #[trigger] bit(a.piece_bb(c, p), i) == bit(b.piece_bb(c, p), i) by {
                assert(bit(a.piece_bb(c, p), i) <==> a.cells()[i as int] == Some((c, p)));
                assert(bit(b.piece_bb(c, p), i) <==> b.cells()[i as int] == Some((c, p)));
            }
            lemma_bit_ext(a.piece_bb(c, p), b.piece_bb(c, p));
        }
        assert(a.pieces =~= b.pieces);
        assert forall|c: Color| a.color_bb(c) == b.color_bb(c) by {
            assert forall|i: u64| i < 64 implies #[trigger] bit(a.color_bb(c), i) == bit(b.color_bb(c), i) by {
                assert(bit(a.color_bb(c), i) <==> (a.cells()[i as int] is Some && a.cells()[i as int].unwrap().0 == c));
                assert(bit(b.color_bb(c), i) <==> (b.cells()[i as int] is Some && b.cells()[i as int].unwrap().0 == c));
            }
            lemma_bit_ext(a.color_bb(c), b.color_bb(c));
        }
        assert(a.color_bb(Color::White) == b.color_bb(Color::White));
        assert(a.color_bb(Color::Black) == b.color_bb(Color::Black));
        assert forall|i: u64| i < 64 implies #[trigger] bit(a.all_bb(), i) == bit(b.all_bb(), i) by {
            assert(bit(a.all_bb(), i) <==> a.cells()[i as int] is Some);
            assert(bit(b.all_bb(), i) <==> b.cells()[i as int] is Some);
        }
        lemma_bit_ext(a.all_bb(), b.all_bb());
        assert(a.occupancy =~= b.occupancy);
        assert forall|i: int| 0 <= i < 64 implies a.mailbox@[i] == b.mailbox@[i] by {
            a.lemma_cells_at(i);
            b.lemma_cells_at(i);
        }
        assert(a.mailbox =~= b.mailbox);
    }
}

/// The piece that starts on file `f` of a back rank.
pub open spec fn back_rank_piece(f: int) -> Piece {
    if f == 0 || f == 7 {
        Piece::Rook
    } else if f == 1 || f == 6 {
        Piece::Knight
    } else if f == 2 || f == 5 {
        Piece::Bishop
    } else if f == 3 {
        Piece::Queen
    } else {
        Piece::King
    }
}

/// The squares of the initial position.
pub open spec fn start_cells() -> Seq<Cell> {
    Seq::new(
        64,
        |i: int|
            if i < 8 {
                Some((Color::White, back_rank_piece(i)))
            } else if i < 16 {
                Some((Color::White, Piece::Pawn))
            } else if i >= 56 {
                Some((Color::Black, back_rank_piece(i - 56)))
            } else if i >= 48 {
                Some((Color::Black, Piece::Pawn))
            } else {
                None
            },
    )
}

fn back_rank(f: usize) -> (r: Piece)
    ensures
        r == back_rank_piece(f as int),
{
    if f == 0 || f == 7 {
        Piece::Rook
    } else if f == 1 || f == 6 {
        Piece::Knight
    } else if f == 2 || f == 5 {
        Piece::Bishop
    } else if f == 3 {
        Piece::Queen
    } else {
        Piece::King
    }
}

impl Board {
    /// The initial position: White on ranks 1-2, Black on ranks 7-8.
    pub fn start_pos() -> (b: Board)
        ensures
            b.wf(),
            b.cells() == start_cells(),
    {
        let mut cells: [Cell; 64] = [None; 64];
        let mut i: usize = 0;
        while i < 64
            invariant
                i <= 64,
                forall|j: int| 0 <= j < i ==> cells@[j] == start_cells()[j],
            decreases 64 - i,
        {
            if i < 8 {
                cells[i] = Some((Color::White, back_rank(i)));
            } else if i < 16 {
                cells[i] = Some((Color::White, Piece::Pawn));
            } else if i >= 56 {
                cells[i] = Some((Color::Black, back_rank(i - 56)));
            } else if i >= 48 {
                cells[i] = Some((Color::Black, Piece::Pawn));
            } else {
                cells[i] = None;
            }
            i += 1;
        }
        assert(cells@ =~= start_cells());
        Board::from_cells(&cells)
    }
}

/// The hash of a placement whose first `n` squares are empty is 0.
pub proof fn lemma_hash_empty(n: nat)
    requires
        n <= 64,
    ensures
        crate::zobrist::hash_upto(Seq::new(64, |i: int| None::<(Color, Piece)>), n) == 0,
    decreases n,
{
    if n > 0 {
        lemma_hash_empty((n - 1) as nat);
        crate::zobrist::lemma_xor_facts(0u64, 0u64, 0u64);
    }
}

} // verus!
