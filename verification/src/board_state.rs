use vstd::prelude::*;
use crate::board::{Board, Cell};
use crate::fen::{fields, spec_placement, spec_state_info, split_fields, vecs_view};
use crate::moves::{Move, MoveFlag};
use crate::piece::{Color, Piece};
use crate::square::Sq64;
use crate::state_info::{FenErr, StateInfo, Undo, color_castle_mask, corner_mask};
use crate::zobrist::{mix64, zobrist_key, CASTLING_BASE, EP_BASE, SIDE_INDEX};
use vstd::string::StringSliceAdditionalSpecFns;

verus! {

/// A position: the pieces, the state fields, the hashes of the positions played
/// before it (for repetition checks), and its own Zobrist hash.
#[derive(Clone, PartialEq, Eq, Debug)]
pub struct BoardState {
    pub board: Board,
    pub state_info: StateInfo,
    pub zobrist_hist: Vec<u64>,
    pub hash: u64,
}

/// Key of the castling-rights value `cr`.
pub open spec fn castling_key(cr: u8) -> u64 {
    mix64((CASTLING_BASE + cr) as u64)
}

/// Key of an en passant square on file `file`.
pub open spec fn ep_key(file: int) -> u64 {
    mix64((EP_BASE + file) as u64)
}

/// Key XORed in when Black is to move.
pub open spec fn side_key() -> u64 {
    mix64(SIDE_INDEX)
}

/// The hash of a position: the placement hash, the castling key, the side key when
/// Black moves, and the key of the en passant file when there is one.
pub open spec fn position_hash(board_hash: u64, si: StateInfo) -> u64 {
    let h1 = board_hash ^ castling_key(si.castle_rights);
    let h2 = if si.active_color == Color::Black {
        h1 ^ side_key()
    } else {
        h1
    };
    match si.ep_square {
        Some(sq) => h2 ^ ep_key((sq.0 % 8) as int),
        None => h2,
    }
}

/// The square of the pawn taken en passant by a pawn of colour `c` arriving on `to`.
pub open spec fn ep_capture_square(c: Color, to: int) -> int {
    match c {
        Color::White => to - 8,
        Color::Black => to + 8,
    }
}

/// The piece kind on a square known to be occupied.
pub open spec fn kind(cell: Cell) -> Piece {
    cell.unwrap().1
}

/// Whether `cell` holds a piece of colour `c`.
pub open spec fn holds(cell: Cell, c: Color) -> bool {
    cell is Some && cell.unwrap().0 == c
}

/// What `make_move` needs of a move so that it moves pieces between squares without
/// overlap: a piece of the side to move on the source square, and squares that are
/// empty or occupied as the flag says; counters that do not overflow.
pub open spec fn move_ok(cells: Seq<Cell>, si: StateInfo, m: Move) -> bool {
    &&& move_shape_ok(cells, si.active_color, m)
    &&& counters_ok(cells, si, m)
}

/// The halfmove clock and the fullmove number do not overflow when `m` is made.
pub open spec fn counters_ok(cells: Seq<Cell>, si: StateInfo, m: Move) -> bool {
    let c = si.active_color;
    let piece = kind(cells[m.from_sq().0 as int]);
    &&& (piece == Piece::Pawn || m.flag().spec_is_capture() || si.half_move_clock < 255)
    &&& (c == Color::Black ==> si.full_move_number < 0xFFFF_FFFF)
}

/// The squares of a move fit its flag: a piece of colour `c` on the source, and the
/// squares the flag touches empty or occupied as it says.
pub open spec fn move_shape_ok(cells: Seq<Cell>, c: Color, m: Move) -> bool {
    let from = m.from_sq().0 as int;
    let to = m.to_sq().0 as int;
    let flag = m.flag();
    let piece = kind(cells[from]);
    &&& m.has_valid_flag()
    &&& holds(cells[from], c)
    &&& match flag {
        MoveFlag::Quiet => cells[to] is None,
        MoveFlag::DoublePawnPush => cells[to] is None && (c == Color::White ==> from + 8 < 64) && (
        c == Color::Black ==> from >= 8),
        MoveFlag::CastleKingside => piece == Piece::King && to == from + 2 && to + 1 < 64
            && cells[to] is None && cells[from + 1] is None && cells[to + 1] == Some(
            (c, Piece::Rook),
        ),
        MoveFlag::CastleQueenside => piece == Piece::King && to + 2 == from && to >= 2
            && cells[to] is None && cells[from - 1] is None && cells[to - 2] == Some(
            (c, Piece::Rook),
        ),
        MoveFlag::EnPassant => piece == Piece::Pawn && cells[to] is None && 0 <= ep_capture_square(
            c,
            to,
        ) < 64 && cells[ep_capture_square(c, to)] == Some((c.opposite(), Piece::Pawn)),
        MoveFlag::Capture => holds(cells[to], c.opposite()),
        _ => piece == Piece::Pawn && (if flag.spec_is_capture() {
            holds(cells[to], c.opposite())
        } else {
            cells[to] is None
        }),
    }
}

/// The squares after `make_move`: the piece leaves its source; castling also moves the
/// rook, en passant removes the passed pawn, promotions put the new piece on the target.
pub open spec fn cells_after_move(cells: Seq<Cell>, c: Color, m: Move) -> Seq<Cell> {
    let from = m.from_sq().0 as int;
    let to = m.to_sq().0 as int;
    let flag = m.flag();
    let piece = kind(cells[from]);
    let base = cells.update(from, None);
    match flag {
        MoveFlag::CastleKingside => base.update(to, Some((c, Piece::King))).update(
            from + 1,
            Some((c, Piece::Rook)),
        ).update(to + 1, None),
        MoveFlag::CastleQueenside => base.update(to, Some((c, Piece::King))).update(
            from - 1,
            Some((c, Piece::Rook)),
        ).update(to - 2, None),
        MoveFlag::EnPassant => base.update(to, Some((c, Piece::Pawn))).update(
            ep_capture_square(c, to),
            None,
        ),
        _ => if flag.spec_is_promotion() {
            base.update(to, Some((c, flag.spec_promoted_piece())))
        } else {
            base.update(to, Some((c, piece)))
        },
    }
}

/// The state fields after `make_move`: castling rights lost by king and rook moves and
/// by captures on a rook corner, the halfmove clock reset by pawn moves and captures,
/// the fullmove number advanced after Black's move, the en passant square set by a
/// double pawn push, and the other side to move.
pub open spec fn state_after_move(cells: Seq<Cell>, si: StateInfo, m: Move) -> StateInfo {
    let c = si.active_color;
    let from = m.from_sq().0 as int;
    let to = m.to_sq().0 as int;
    let flag = m.flag();
    let piece = kind(cells[from]);
    let cr1 = if piece == Piece::King {
        si.castle_rights & !color_castle_mask(c)
    } else {
        si.castle_rights
    };
    let cr2 = if piece == Piece::Rook {
        cr1 & !corner_mask(from as u8)
    } else {
        cr1
    };
    let cr3 = if flag.spec_is_capture() && flag != MoveFlag::EnPassant {
        cr2 & !corner_mask(to as u8)
    } else {
        cr2
    };
    StateInfo {
        castle_rights: cr3,
        active_color: c.opposite(),
        half_move_clock: if piece == Piece::Pawn || flag.spec_is_capture() {
            0
        } else {
            (si.half_move_clock + 1) as u8
        },
        full_move_number: if c == Color::Black {
            (si.full_move_number + 1) as u32
        } else {
            si.full_move_number
        },
        ep_square: if flag == MoveFlag::DoublePawnPush {
            Some(
                Sq64(
                    (if c == Color::White {
                        from + 8
                    } else {
                        from - 8
                    }) as u8,
                ),
            )
        } else {
            None
        },
    }
}

/// The record `make_move` returns: the move, the piece it captures, and the castling
/// rights, en passant square and halfmove clock from before the move.
pub open spec fn undo_record(cells: Seq<Cell>, si: StateInfo, m: Move) -> Undo {
    let to = m.to_sq().0 as int;
    let flag = m.flag();
    Undo {
        mv: m,
        captured_piece: if flag == MoveFlag::EnPassant {
            Some(Piece::Pawn)
        } else if flag.spec_is_capture() {
            Some(kind(cells[to]))
        } else {
            None
        },
        prev_halfmove_clock: si.half_move_clock,
        prev_castling_rights: si.castle_rights,
        prev_ep_square: si.ep_square,
    }
}

/// The square where `undo_move` puts back a pawn taken en passant, `color` being the
/// side to move after the capture (the side that lost the pawn).
pub open spec fn ep_restore_square(color: Color, to: int) -> int {
    match color {
        Color::White => to + 8,
        Color::Black => to - 8,
    }
}

/// What `undo_move` needs: the moved piece of the side that just moved on the target,
/// an empty source, and empty or occupied squares for the pieces it puts back.
pub open spec fn undo_ok(cells: Seq<Cell>, si: StateInfo, u: Undo) -> bool {
    let color = si.active_color;
    let prev = color.opposite();
    let m = u.mv;
    let from = m.from_sq().0 as int;
    let to = m.to_sq().0 as int;
    let flag = m.flag();
    &&& m.has_valid_flag()
    &&& holds(cells[to], prev)
    &&& from != to
    &&& cells[from] is None
    &&& (color == Color::White ==> si.full_move_number > 0)
    &&& (u.captured_piece is Some && flag == MoveFlag::EnPassant ==> {
        let csq = ep_restore_square(color, to);
        0 <= csq < 64 && cells[csq] is None && csq != from
    })
    &&& (flag == MoveFlag::CastleKingside ==> to >= 1 && to + 1 < 64 && cells[to - 1] == Some(
        (prev, Piece::Rook),
    ) && cells[to + 1] is None && to + 1 != from && to - 1 != from)
    &&& (flag == MoveFlag::CastleQueenside ==> to >= 2 && to + 1 < 64 && cells[to + 1] == Some(
        (prev, Piece::Rook),
    ) && cells[to - 2] is None && to - 2 != from && to + 1 != from)
}

/// The squares after `undo_move`: the moved piece (a pawn again after a promotion) goes
/// back to its source, a captured piece reappears, a castling rook goes back.
pub open spec fn cells_after_undo(cells: Seq<Cell>, color: Color, u: Undo) -> Seq<Cell> {
    let prev = color.opposite();
    let m = u.mv;
    let from = m.from_sq().0 as int;
    let to = m.to_sq().0 as int;
    let flag = m.flag();
    let piece = kind(cells[to]);
    let c1 = cells.update(to, None);
    let c2 = match u.captured_piece {
        Some(cp) => if flag == MoveFlag::EnPassant {
            c1.update(ep_restore_square(color, to), Some((color, cp)))
        } else {
            c1.update(to, Some((color, cp)))
        },
        None => c1,
    };
    let c3 = c2.update(
        from,
        Some(
            (prev, if flag.spec_is_promotion() {
                Piece::Pawn
            } else {
                piece
            }),
        ),
    );
    if flag == MoveFlag::CastleKingside {
        c3.update(to - 1, None).update(to + 1, Some((prev, Piece::Rook)))
    } else if flag == MoveFlag::CastleQueenside {
        c3.update(to + 1, None).update(to - 2, Some((prev, Piece::Rook)))
    } else {
        c3
    }
}

/// The state fields after `undo_move` (see `StateInfo::undo`).
pub open spec fn state_after_undo(si: StateInfo, u: Undo) -> StateInfo {
    StateInfo {
        castle_rights: u.prev_castling_rights,
        active_color: si.active_color.opposite(),
        half_move_clock: u.prev_halfmove_clock,
        full_move_number: if si.active_color == Color::White {
            (si.full_move_number - 1) as u32
        } else {
            si.full_move_number
        },
        ep_square: u.prev_ep_square,
    }
}

impl BoardState {
    /// The hashes of the earlier positions, oldest first.
    pub open spec fn history(self) -> Seq<u64> {
        self.zobrist_hist@
    }

    /// The stored hash of the position.
    pub open spec fn hash_value(self) -> u64 {
        self.hash
    }

    /// The pieces and state are consistent and the hash is that of the position.
    pub open spec fn wf(self) -> bool {
        &&& self.board.wf()
        &&& self.state_info.wf()
        &&& self.hash_value() == position_hash(self.board.hash_value(), self.state_info)
    }

    /// The position's Zobrist hash.
    pub fn hash(&self) -> (r: u64)
        ensures
            r == self.hash_value(),
    {
        self.hash
    }

    /// The hashes of the earlier positions, oldest first.
    pub fn hash_history(&self) -> (r: &Vec<u64>)
        ensures
            r@ == self.history(),
    {
        &self.zobrist_hist
    }

    fn update_zobrist(&mut self)
        requires
            old(self).state_info.wf(),
        ensures
            final(self).hash_value() == position_hash(final(self).board.hash_value(), final(self).state_info),
            final(self).board == old(self).board,
            final(self).state_info == old(self).state_info,
            final(self).history() == old(self).history(),
    {
        let mut zobrist = self.board.hash();
        zobrist = zobrist ^ zobrist_key(CASTLING_BASE + self.state_info.castle_rights as u64);
        if self.state_info.active_color == Color::Black {
            zobrist = zobrist ^ zobrist_key(SIDE_INDEX);
        }
        match self.state_info.ep_square {
            Some(sq) => {
                zobrist = zobrist ^ zobrist_key(EP_BASE + sq.file() as u64);
            },
            None => {},
        }
        self.hash = zobrist;
    }

    /// The board of the position.
    pub fn board(&self) -> (r: &Board)
        ensures
            *r == self.board,
    {
        &self.board
    }

    /// The initial position with White to move.
    pub fn start_pos() -> (r: BoardState)
        ensures
            r.wf(),
            r.board.cells() == crate::board::start_cells(),
            r.state_info == (StateInfo {
                castle_rights: 15,
                active_color: Color::White,
                half_move_clock: 0,
                full_move_number: 1,
                ep_square: None,
            }),
            r.history() == Seq::<u64>::empty(),
    {
        let mut bs = BoardState {
            board: Board::start_pos(),
            state_info: StateInfo::start_pos(),
            zobrist_hist: Vec::new(),
            hash: 0,
        };
        bs.update_zobrist();
        bs
    }
}

/// What a FEN describes: its placement and its state fields, or the first error.
pub open spec fn spec_fen(s: Seq<u8>) -> Result<(Seq<Cell>, StateInfo), FenErr> {
    let f = fields(s);
    if f.len() != 6 {
        Err(FenErr::InvalidFormat)
    } else {
        match spec_placement(f[0]) {
            Err(e) => Err(e),
            Ok(cells) => match spec_state_info(f.subrange(1, 6)) {
                Err(e) => Err(e),
                Ok(si) => Ok((cells, si)),
            },
        }
    }
}

impl BoardState {
    /// Reads a position from FEN: six whitespace-separated fields (placement, side to
    /// move, castling rights, en passant square, halfmove clock, fullmove number).
    pub fn from_fen(fen: &str) -> (r: Result<BoardState, FenErr>)
        ensures
            match spec_fen(fen.spec_bytes()) {
                Ok((cells, si)) => r matches Ok(bs) && bs.wf() && bs.board.cells() == cells
                    && bs.state_info == si && bs.history() == Seq::<u64>::empty(),
                Err(e) => r == Err::<BoardState, FenErr>(e),
            },
    {
        BoardState::from_fen_bytes(fen.as_bytes())
    }

    /// Reads a position from the bytes of a FEN (see `from_fen`).
    pub fn from_fen_bytes(fen: &[u8]) -> (r: Result<BoardState, FenErr>)
        ensures
            match spec_fen(fen@) {
                Ok((cells, si)) => r matches Ok(bs) && bs.wf() && bs.board.cells() == cells
                    && bs.state_info == si && bs.history() == Seq::<u64>::empty(),
                Err(e) => r == Err::<BoardState, FenErr>(e),
            },
    {
        let parts = split_fields(fen);
        if parts.len() != 6 {
            return Err(FenErr::InvalidFormat);
        }
        proof {
            assert(parts@[0]@ == fields(fen@)[0]);
        }
        let board = match Board::from_placement_bytes(parts[0].as_slice()) {
            Ok(b) => b,
            Err(e) => {
                return Err(e);
            },
        };
        let state_info = match crate::fen::state_info_from_fields(
            parts[1].as_slice(),
            parts[2].as_slice(),
            parts[3].as_slice(),
            parts[4].as_slice(),
            parts[5].as_slice(),
        ) {
            Ok(si) => si,
            Err(e) => {
                proof {
                    assert(fields(fen@).subrange(1, 6) =~= seq![parts@[1]@, parts@[2]@, parts@[3]@, parts@[4]@, parts@[5]@]);
                }
                return Err(e);
            },
        };
        proof {
            assert(fields(fen@).subrange(1, 6) =~= seq![parts@[1]@, parts@[2]@, parts@[3]@, parts@[4]@, parts@[5]@]);
        }
        let mut bs = BoardState { board, state_info, zobrist_hist: Vec::new(), hash: 0 };
        bs.update_zobrist();
        Ok(bs)
    }
}

impl BoardState {
    /// Plays `m` for the side to move and returns what `undo_move` needs to take it back.
    /// The previous hash is appended to the history.
    #[verifier::rlimit(40)]
    pub fn make_move(&mut self, m: Move) -> (u: Undo)
        requires
            old(self).wf(),
            move_ok(old(self).board.cells(), old(self).state_info, m),
        ensures
            final(self).wf(),
            final(self).board.cells() == cells_after_move(
                old(self).board.cells(),
                old(self).state_info.active_color,
                m,
            ),
            final(self).state_info == state_after_move(old(self).board.cells(), old(self).state_info, m),
            final(self).history() == old(self).history().push(old(self).hash_value()),
            u == undo_record(old(self).board.cells(), old(self).state_info, m),
    {
        let ghost cells0 = self.board.cells();
        let ghost si0 = self.state_info;
        self.zobrist_hist.push(self.hash);
        let flags = m.flags();
        let from = m.source();
        let to = m.target();
        let color = self.state_info.active_color;
        proof {
            self.board.lemma_cells_len();
            assert(cells0[from.0 as int] is Some);
            assert(self.board.mailbox_at(from.0 as int) is Some) by {
                self.board.lemma_mailbox_cells(from.0 as int);
            }
        }
        let piece = self.board.get_piece_at(from);
        let mut undo = Undo::new(m, &self.state_info);
        self.state_info.ep_square = None;
        self.board.remove_piece(from, color, piece);
        let ghost cells1 = cells0.update(from.0 as int, None);
        assert(self.board.cells() == cells1);
        if piece == Piece::King {
            self.state_info.remove_castle_rights(color);
        }
        if piece == Piece::Rook {
            self.state_info.clear_corner_castle_rights(from);
        }
        let ghost cr2 = self.state_info.castle_rights;
        match flags {
            MoveFlag::Quiet => {
                self.board.place_piece(to, color, piece);
            },
            MoveFlag::DoublePawnPush => {
                self.board.place_piece(to, color, piece);
                self.state_info.ep_square = match color {
                    Color::White => Some(from.offset(8)),
                    Color::Black => Some(from.offset(-8)),
                };
            },
            MoveFlag::CastleKingside => {
                self.board.place_piece(to, color, Piece::King);
                self.board.place_piece(from.offset(1), color, Piece::Rook);
                self.board.remove_piece(to.offset(1), color, Piece::Rook);
            },
            MoveFlag::CastleQueenside => {
                self.board.place_piece(to, color, Piece::King);
                self.board.place_piece(from.offset(-1), color, Piece::Rook);
                self.board.remove_piece(to.offset(-2), color, Piece::Rook);
            },
            MoveFlag::EnPassant => {
                self.board.place_piece(to, color, Piece::Pawn);
                undo.captured_piece = Some(Piece::Pawn);
                match color {
                    Color::White => self.board.remove_piece(to.offset(-8), Color::Black, Piece::Pawn),
                    Color::Black => self.board.remove_piece(to.offset(8), Color::White, Piece::Pawn),
                }
            },
            _ => {
                if flags.is_capture() {
                    proof {
                        self.board.lemma_mailbox_cells(to.0 as int);
                    }
                    let cp = self.board.get_piece_at(to);
                    undo.captured_piece = Some(cp);
                    self.board.remove_piece(to, color.flip(), cp);
                    self.state_info.clear_corner_castle_rights(to);
                    if flags == MoveFlag::Capture {
                        self.board.place_piece(to, color, piece);
                    }
                }
            },
        }
        if flags.is_promotion() {
            let new_piece = flags.promoted_piece();
            self.board.place_piece(to, color, new_piece);
        }
        if piece == Piece::Pawn || flags.is_capture() {
            self.state_info.half_move_clock = 0;
        } else {
            self.state_info.half_move_clock = self.state_info.half_move_clock + 1;
        }
        if color == Color::Black {
            self.state_info.full_move_number = self.state_info.full_move_number + 1;
        }
        self.state_info.active_color = self.state_info.active_color.flip();
        proof {
            assert(self.board.cells() =~= cells_after_move(cells0, color, m));
        }
        self.update_zobrist();
        undo
    }
}

impl BoardState {
    /// Takes back the move recorded in `undo`: the moved piece (a pawn again after a
    /// promotion) returns to its source, a captured piece and a castling rook go back,
    /// the recorded state fields return and the last history entry is dropped.
    #[verifier::rlimit(40)]
    pub fn undo_move(&mut self, undo: &Undo)
        requires
            old(self).wf(),
            undo_ok(old(self).board.cells(), old(self).state_info, *undo),
            undo.prev_castling_rights < 16,
            undo.prev_ep_square matches Some(sq) ==> sq.valid(),
        ensures
            final(self).wf(),
            final(self).board.cells() == cells_after_undo(
                old(self).board.cells(),
                old(self).state_info.active_color,
                *undo,
            ),
            final(self).state_info == state_after_undo(old(self).state_info, *undo),
            final(self).history() == (if old(self).history().len() > 0 {
                old(self).history().drop_last()
            } else {
                old(self).history()
            }),
    {
        let ghost cells0 = self.board.cells();
        let color = self.state_info.active_color;
        let prev_color = color.flip();
        let m = undo.mv;
        let from = m.source();
        let to = m.target();
        let flag = m.flags();
        proof {
            self.board.lemma_cells_len();
            self.board.lemma_mailbox_cells(to.0 as int);
        }
        let piece = self.board.get_piece_at(to);
        self.board.remove_piece(to, prev_color, piece);
        match undo.captured_piece {
            Some(cp) => {
                if flag == MoveFlag::EnPassant {
                    let csq = match color {
                        Color::White => to.offset(8),
                        Color::Black => to.offset(-8),
                    };
                    self.board.place_piece(csq, color, cp);
                } else {
                    self.board.place_piece(to, color, cp);
                }
            },
            None => {},
        }
        if flag.is_promotion() {
            self.board.place_piece(from, prev_color, Piece::Pawn);
        } else {
            self.board.place_piece(from, prev_color, piece);
        }
        if flag == MoveFlag::CastleKingside {
            self.board.remove_piece(to.offset(-1), prev_color, Piece::Rook);
            self.board.place_piece(to.offset(1), prev_color, Piece::Rook);
        }
        if flag == MoveFlag::CastleQueenside {
            self.board.remove_piece(to.offset(1), prev_color, Piece::Rook);
            self.board.place_piece(to.offset(-2), prev_color, Piece::Rook);
        }
        self.state_info.undo(undo);
        self.zobrist_hist.pop();
        proof {
            assert(self.board.cells() =~= cells_after_undo(cells0, color, *undo));
        }
        self.update_zobrist();
    }
}

/// Taking back a move puts every piece back where it stood and restores the state
/// fields, the en passant square included.
pub proof fn law_undo_after_make(cells: Seq<Cell>, si: StateInfo, m: Move)
    requires
        cells.len() == 64,
        si.wf(),
        move_ok(cells, si, m),
    ensures
        ({
            let c2 = cells_after_move(cells, si.active_color, m);
            let s2 = state_after_move(cells, si, m);
            let u = undo_record(cells, si, m);
            &&& undo_ok(c2, s2, u)
            &&& u.prev_castling_rights < 16
            &&& cells_after_undo(c2, s2.active_color, u) == cells
            &&& state_after_undo(s2, u) == si
        }),
{
    let c = si.active_color;
    let c2 = cells_after_move(cells, c, m);
    let s2 = state_after_move(cells, si, m);
    let u = undo_record(cells, si, m);
    let back = cells_after_undo(c2, s2.active_color, u);
    let from = m.from_sq().0 as int;
    let to = m.to_sq().0 as int;
    let flag = m.flag();
    crate::moves::lemma_move_squares(m);
    assert(from != to);
    assert(c2[to] is Some && c2[to].unwrap().0 == c);
    assert(c2[from] is None);
    assert(kind(c2[to]) == (if flag == MoveFlag::CastleKingside || flag == MoveFlag::CastleQueenside {
        Piece::King
    } else if flag.spec_is_promotion() {
        flag.spec_promoted_piece()
    } else {
        kind(cells[from])
    }));
    assert forall|i: int| 0 <= i < 64 implies #[trigger] back[i] == cells[i] by {
        if flag == MoveFlag::EnPassant {
            assert(cells[from] == Some((c, Piece::Pawn)));
        }
    }
    assert(back =~= cells);
}

/// Making a move and taking it back with the returned record gives back the position
/// it started from: pieces, state fields, hash and history.
pub proof fn law_make_undo_roundtrip(s0: BoardState, m: Move, u: Undo, s1: BoardState, s2: BoardState)
    requires
        s0.wf(),
        move_ok(s0.board.cells(), s0.state_info, m),
        s1.wf(),
        s1.board.cells() == cells_after_move(s0.board.cells(), s0.state_info.active_color, m),
        s1.state_info == state_after_move(s0.board.cells(), s0.state_info, m),
        s1.history() == s0.history().push(s0.hash_value()),
        u == undo_record(s0.board.cells(), s0.state_info, m),
        s2.wf(),
        s2.board.cells() == cells_after_undo(s1.board.cells(), s1.state_info.active_color, u),
        s2.state_info == state_after_undo(s1.state_info, u),
        s2.history() == (if s1.history().len() > 0 {
            s1.history().drop_last()
        } else {
            s1.history()
        }),
    ensures
        s2.board == s0.board,
        s2.state_info == s0.state_info,
        s2.history() == s0.history(),
        s2.hash_value() == s0.hash_value(),
{
    s0.board.lemma_cells_len();
    law_undo_after_make(s0.board.cells(), s0.state_info, m);
    Board::lemma_board_ext(s2.board, s0.board);
    assert(s1.history().drop_last() =~= s0.history());
}

/// How many entries of `s` equal `v`.
pub open spec fn count_eq(s: Seq<u64>, v: u64) -> nat
    decreases s.len(),
{
    if s.len() == 0 {
        0
    } else {
        count_eq(s.drop_last(), v) + if s.last() == v {
            1nat
        } else {
            0nat
        }
    }
}

/// The last `n` entries of `s` (all of them when there are fewer).
pub open spec fn last_n(s: Seq<u64>, n: int) -> Seq<u64> {
    if n >= s.len() {
        s
    } else {
        s.subrange(s.len() - n, s.len() as int)
    }
}

proof fn lemma_count_eq_append_front(s: Seq<u64>, i: int, v: u64)
    requires
        0 <= i < s.len(),
    ensures
        count_eq(s.subrange(i, s.len() as int), v) == count_eq(s.subrange(i + 1, s.len() as int), v) + if s[i] == v {
            1nat
        } else {
            0nat
        },
    decreases s.len() - i,
{
    if i + 1 == s.len() {
        assert(s.subrange(i, s.len() as int).drop_last() =~= Seq::<u64>::empty());
        assert(s.subrange(i + 1, s.len() as int) =~= Seq::<u64>::empty());
    } else {
        let t = s.drop_last();
        lemma_count_eq_append_front(t, i, v);
        assert(s.subrange(i, s.len() as int).drop_last() =~= t.subrange(i, t.len() as int));
        assert(s.subrange(i + 1, s.len() as int).drop_last() =~= t.subrange(i + 1, t.len() as int));
    }
}

impl BoardState {
    /// Whether the current hash occurs at least twice among the positions since the
    /// last pawn move or capture (the last `half_move_clock` history entries).
    pub fn is_repetition(&self) -> (r: bool)
        ensures
            r == (count_eq(last_n(self.history(), self.state_info.half_move_clock as int), self.hash_value()) >= 2),
    {
        let clock = self.state_info.half_move_clock as usize;
        let n = self.zobrist_hist.len();
        let start: usize = if clock >= n { 0 } else { n - clock };
        let mut count: usize = 0;
        let mut i: usize = n;
        let ghost h = self.zobrist_hist@;
        proof {
            assert(last_n(h, clock as int) =~= h.subrange(start as int, n as int));
        }
        while i > start
            invariant
                start <= i <= n,
                n == h.len(),
                h == self.zobrist_hist@,
                count == count_eq(h.subrange(i as int, n as int), self.hash),
                count <= n - i,
            decreases i,
        {
            i = i - 1;
            proof {
                lemma_count_eq_append_front(h, i as int, self.hash);
            }
            if self.zobrist_hist[i] == self.hash {
                count = count + 1;
            }
        }
        count >= 2
    }
}

/// The move a UCI-style string names for the side to move: `0-0` and `0-0-0` castle,
/// otherwise four bytes naming the source and target squares; the capture flag is set
/// when an enemy piece stands on the target.
pub open spec fn spec_from_notation(b: Board, color: Color, s: Seq<u8>) -> Option<Move> {
    if s == seq![48u8, 45u8, 48u8] {
        Some(
            match color {
                Color::White => Move((4 | (6u16 << 6u16) | (2u16 << 12u16)) as u16),
                Color::Black => Move((60 | (62u16 << 6u16) | (2u16 << 12u16)) as u16),
            },
        )
    } else if s == seq![48u8, 45u8, 48u8, 45u8, 48u8] {
        Some(
            match color {
                Color::White => Move((4 | (2u16 << 6u16) | (3u16 << 12u16)) as u16),
                Color::Black => Move((60 | (58u16 << 6u16) | (3u16 << 12u16)) as u16),
            },
        )
    } else if s.len() != 4 {
        None
    } else {
        match (Sq64::spec_from_notation(s.subrange(0, 2)), Sq64::spec_from_notation(s.subrange(2, 4))) {
            (Some(f), Some(t)) => Some(
                Move(
                    (f.0 as u16 | ((t.0 as u16) << 6u16) | ((if crate::bits::bit(
                        b.color_bb(color.opposite()),
                        t.0 as u64,
                    ) {
                        4u16
                    } else {
                        0u16
                    }) << 12u16)) as u16,
                ),
            ),
            _ => None,
        }
    }
}

impl Move {
    /// Reads a move in the notation of `spec_from_notation`. A five-byte string other
    /// than `0-0-0` reads past its end (index 5), so it is left out.
    pub fn from_notation(bs: &BoardState, notation: &str) -> (r: Option<Move>)
        requires
            notation.spec_bytes().len() == 5 ==> notation.spec_bytes() == seq![48u8, 45u8, 48u8, 45u8, 48u8],
        ensures
            r == spec_from_notation(bs.board, bs.state_info.active_color, notation.spec_bytes()),
    {
        let color = bs.state_info.active_color;
        let bytes = notation.as_bytes();
        if bytes.len() == 3 && bytes[0] == 48 && bytes[1] == 45 && bytes[2] == 48 {
            assert(bytes@ =~= seq![48u8, 45u8, 48u8]);
            return Some(
                match color {
                    Color::White => Move(4 | 6 << 6 | 2 << 12),
                    Color::Black => Move(60 | 62 << 6 | 2 << 12),
                },
            );
        }
        if bytes.len() == 5 && bytes[0] == 48 && bytes[1] == 45 && bytes[2] == 48 && bytes[3] == 45
            && bytes[4] == 48 {
            assert(bytes@ =~= seq![48u8, 45u8, 48u8, 45u8, 48u8]);
            return Some(
                match color {
                    Color::White => Move(4 | 2 << 6 | 3 << 12),
                    Color::Black => Move(60 | 58 << 6 | 3 << 12),
                },
            );
        }
        if bytes.len() != 4 {
            return None;
        }
        let mut flag: u16 = 0;
        let from_sq = match Sq64::from_notation(&bytes[0..2]) {
            Some(sq) => sq,
            None => {
                return None;
            },
        };
        let to_sq = match Sq64::from_notation(&bytes[2..4]) {
            Some(sq) => sq,
            None => {
                return None;
            },
        };
        proof {
            assert(from_sq.0 < 64 && to_sq.0 < 64);
        }
        if bs.board.is_occupied_enemy(to_sq, color) {
            flag += 4;
        }
        Some(Move(from_sq.0 as u16 | (to_sq.0 as u16) << 6 | flag << 12))
    }
}

} // verus!
