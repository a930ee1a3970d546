use vstd::prelude::*;
use crate::board::{Board, Cell};
use crate::piece::{Color, Piece};
use crate::square::Sq64;
use crate::text::{all_ascii, ascii_chars, ascii_string};

verus! {

/// The upper-case letter of a piece kind.
pub open spec fn piece_letter(p: Piece) -> u8 {
    match p {
        Piece::Pawn => 80,
        Piece::Knight => 78,
        Piece::Bishop => 66,
        Piece::Rook => 82,
        Piece::Queen => 81,
        Piece::King => 75,
    }
}

/// How a square shows on the printed board: `.` when empty, the piece letter, upper
/// case for White and lower case for Black.
pub open spec fn visual(cell: Cell) -> u8 {
    match cell {
        None => 46,
        Some((c, p)) => if c == Color::White {
            piece_letter(p)
        } else {
            (piece_letter(p) + 32) as u8
        },
    }
}

/// The separator line `  -----------------`.
pub open spec fn separator() -> Seq<u8> {
    seq![32u8, 32].add(Seq::new(17, |i: int| 45u8)).push(10)
}

/// The file letters under the board.
pub open spec fn footer() -> Seq<u8> {
    seq![32u8, 32, 32, 97, 32, 98, 32, 99, 32, 100, 32, 101, 32, 102, 32, 103, 32, 104, 32, 10]
}

/// The first `n` squares of rank `r`, each as `|` and its letter.
pub open spec fn rank_squares(cells: Seq<Cell>, r: int, n: int) -> Seq<u8>
    decreases n,
{
    if n <= 0 {
        Seq::empty()
    } else {
        rank_squares(cells, r, n - 1) + seq![124u8, visual(cells[8 * r + n - 1])]
    }
}

/// The lines of rank `r`: its number, its squares, and a separator.
pub open spec fn rank_lines(cells: Seq<Cell>, r: int) -> Seq<u8> {
    seq![(49 + r) as u8, 32u8] + rank_squares(cells, r, 8) + seq![124u8, 10u8] + separator()
}

/// The lines of the top `k` ranks, rank 8 first.
pub open spec fn top_ranks(cells: Seq<Cell>, k: int) -> Seq<u8>
    decreases k,
{
    if k <= 0 {
        Seq::empty()
    } else {
        top_ranks(cells, k - 1) + rank_lines(cells, 8 - k)
    }
}

/// The board as text: a separator, the ranks from 8 down to 1, and the file letters.
pub open spec fn board_text(cells: Seq<Cell>) -> Seq<u8> {
    separator() + top_ranks(cells, 8) + footer()
}

fn push_separator(v: &mut Vec<u8>)
    ensures
        final(v)@ == old(v)@ + separator(),
{
    let ghost v0 = v@;
    v.push(32);
    v.push(32);
    let mut i: usize = 0;
    while i < 17
        invariant
            i <= 17,
            v@ == v0 + seq![32u8, 32] + Seq::new(i as nat, |j: int| 45u8),
        decreases 17 - i,
    {
        v.push(45);
        i = i + 1;
        proof {
            assert(v@ =~= v0 + seq![32u8, 32] + Seq::new(i as nat, |j: int| 45u8));
        }
    }
    v.push(10);
    proof {
        assert(v@ =~= v0 + separator());
    }
}

impl Board {
    /// The character that shows the square of `rank` and `file` (see `visual`).
    pub fn get_piece_visual(&self, rank: u8, file: u8) -> (r: char)
        requires
            self.wf(),
            rank < 8,
            file < 8,
        ensures
            r == visual(self.cells()[8 * rank + file]) as char,
    {
        self.visual_byte(rank, file) as char
    }

    /// The byte of the character that shows the square of `rank` and `file`.
    fn visual_byte(&self, rank: u8, file: u8) -> (r: u8)
        requires
            self.wf(),
            rank < 8,
            file < 8,
        ensures
            r == visual(self.cells()[8 * rank + file]),
    {
        let sq = Sq64(file + rank * 8);
        proof {
            self.lemma_mailbox_cells(sq.0 as int);
        }
        if !self.is_occupied(sq) {
            return 46;
        }
        let letter: u8 = match self.get_piece_at(sq) {
            Piece::Pawn => 80,
            Piece::Knight => 78,
            Piece::Bishop => 66,
            Piece::Rook => 82,
            Piece::Queen => 81,
            Piece::King => 75,
        };
        if self.is_occupied_enemy(sq, Color::White) {
            letter + 32
        } else {
            letter
        }
    }

    /// The bytes of the board as text (see `board_text`).
    pub fn text_bytes(&self) -> (v: Vec<u8>)
        requires
            self.wf(),
        ensures
            v@ == board_text(self.cells()),
    {
        let ghost cells = self.cells();
        let mut v: Vec<u8> = Vec::new();
        push_separator(&mut v);
        let mut k: u8 = 0;
        proof {
            assert(v@ =~= separator() + top_ranks(cells, 0));
        }
        while k < 8
            invariant
                k <= 8,
                self.wf(),
                cells == self.cells(),
                v@ == separator() + top_ranks(cells, k as int),
            decreases 8 - k,
        {
            let rank = 7 - k;
            let ghost before = v@;
            v.push(49 + rank);
            v.push(32);
            let mut file: u8 = 0;
            while file < 8
                invariant
                    file <= 8,
                    rank < 8,
                    self.wf(),
                    cells == self.cells(),
                    v@ == before + seq![(49 + rank) as u8, 32u8] + rank_squares(cells, rank as int, file as int),
                decreases 8 - file,
            {
                let c = self.visual_byte(rank, file);
                v.push(124);
                v.push(c);
                file = file + 1;
                proof {
                    assert(v@ =~= before + seq![(49 + rank) as u8, 32u8] + rank_squares(cells, rank as int, file as int));
                }
            }
            v.push(124);
            v.push(10);
            push_separator(&mut v);
            k = k + 1;
            proof {
                assert(v@ =~= separator() + top_ranks(cells, k as int));
            }
        }
        let footer_bytes: [u8; 20] = [32, 32, 32, 97, 32, 98, 32, 99, 32, 100, 32, 101, 32, 102, 32, 103, 32, 104, 32, 10];
        let ghost mid = v@;
        let mut i: usize = 0;
        while i < 20
            invariant
                i <= 20,
                v@ == mid + footer_bytes@.take(i as int),
            decreases 20 - i,
        {
            v.push(footer_bytes[i]);
            i = i + 1;
            proof {
                assert(v@ =~= mid + footer_bytes@.take(i as int));
            }
        }
        proof {
            assert(footer_bytes@.take(20) =~= footer());
        }
        v
    }

    /// The board as text, as it is printed (see `board_text`).
    pub fn to_string(&self) -> (s: String)
        requires
            self.wf(),
        ensures
            s@ == ascii_chars(board_text(self.cells())),
    {
        let v = self.text_bytes();
        proof {
            assert(all_ascii(v@)) by {
                lemma_board_text_ascii(self.cells());
            }
        }
        ascii_string(v)
    }
}

proof fn lemma_rank_squares_ascii(cells: Seq<Cell>, r: int, n: int)
    ensures
        all_ascii(rank_squares(cells, r, n)),
    decreases n,
{
    if n > 0 {
        lemma_rank_squares_ascii(cells, r, n - 1);
        let s = rank_squares(cells, r, n);
        assert forall|i: int| 0 <= i < s.len() implies #[trigger] s[i] < 128 by {
            let p = rank_squares(cells, r, n - 1);
            if i >= p.len() {
                assert(s[i] == seq![124u8, visual(cells[8 * r + n - 1])][i - p.len()]);
            } else {
                assert(s[i] == p[i]);
            }
        }
    }
}

proof fn lemma_top_ranks_ascii(cells: Seq<Cell>, k: int)
    requires
        k <= 8,
    ensures
        all_ascii(top_ranks(cells, k)),
    decreases k,
{
    if k > 0 {
        lemma_top_ranks_ascii(cells, k - 1);
        lemma_rank_squares_ascii(cells, 8 - k, 8);
        let a = top_ranks(cells, k - 1);
        let line = rank_lines(cells, 8 - k);
        let sq = rank_squares(cells, 8 - k, 8);
        assert forall|i: int| 0 <= i < line.len() implies #[trigger] line[i] < 128 by {
            if i < 2 {
            } else if i < 2 + sq.len() {
                assert(line[i] == sq[i - 2]);
            } else if i < 4 + sq.len() {
            } else {
                assert(line[i] == separator()[i - 4 - sq.len()]);
            }
        }
        let s = top_ranks(cells, k);
        assert forall|i: int| 0 <= i < s.len() implies #[trigger] s[i] < 128 by {
            if i < a.len() {
                assert(s[i] == a[i]);
            } else {
                assert(s[i] == line[i - a.len()]);
            }
        }
    }
}

proof fn lemma_board_text_ascii(cells: Seq<Cell>)
    ensures
        all_ascii(board_text(cells)),
{
    lemma_top_ranks_ascii(cells, 8);
    let t = top_ranks(cells, 8);
    let s = board_text(cells);
    assert forall|i: int| 0 <= i < s.len() implies #[trigger] s[i] < 128 by {
        if i < separator().len() {
        } else if i < separator().len() + t.len() {
            assert(s[i] == t[i - separator().len()]);
        } else {
            assert(s[i] == footer()[i - separator().len() - t.len()]);
        }
    }
}

} // verus!
