use vstd::prelude::*;
use crate::fen::{parse_number, parse_unsigned};
use crate::board::Cell;
use crate::board_state::{
    cells_after_move, counters_ok, kind, spec_fen, state_after_move, BoardState,
};
use crate::generate::{gen_move, generate_moves};
use crate::legality::{law_generated_move_legal, lemma_legal_ready};
use crate::moves::{uci_bytes, Move};
use crate::piece::{Color, Piece};
use crate::position::legal_position;
use crate::state_info::StateInfo;
use vstd::string::StringSliceAdditionalSpecFns;

verus! {

/// Whether two byte strings are equal.
pub fn bytes_eq(a: &[u8], b: &[u8]) -> (r: bool)
    ensures
        r == (a@ == b@),
{
    if a.len() != b.len() {
        return false;
    }
    let mut i: usize = 0;
    while i < a.len()
        invariant
            a@.len() == b@.len(),
            i <= a.len(),
            forall|j: int| 0 <= j < i ==> a@[j] == b@[j],
        decreases a.len() - i,
    {
        if a[i] != b[i] {
            return false;
        }
        i = i + 1;
    }
    proof {
        assert(a@ =~= b@);
    }
    true
}

/// The bytes of the words of a command line.
pub open spec fn toks_view(parts: Seq<&str>) -> Seq<Seq<u8>> {
    parts.map_values(|s: &str| s.spec_bytes())
}

pub open spec fn kw_wtime() -> Seq<u8> {
    seq![119u8, 116, 105, 109, 101]
}

pub open spec fn kw_btime() -> Seq<u8> {
    seq![98u8, 116, 105, 109, 101]
}

pub open spec fn kw_winc() -> Seq<u8> {
    seq![119u8, 105, 110, 99]
}

pub open spec fn kw_binc() -> Seq<u8> {
    seq![98u8, 105, 110, 99]
}

pub open spec fn kw_depth() -> Seq<u8> {
    seq![100u8, 101, 112, 116, 104]
}

pub open spec fn kw_movetime() -> Seq<u8> {
    seq![109u8, 111, 118, 101, 116, 105, 109, 101]
}

pub open spec fn kw_infinite() -> Seq<u8> {
    seq![105u8, 110, 102, 105, 110, 105, 116, 101]
}

/// The limits of a `go` command, times in milliseconds.
pub struct GoParams {
    pub movetime: Option<u64>,
    pub wtime: Option<u64>,
    pub btime: Option<u64>,
    pub winc: Option<u64>,
    pub binc: Option<u64>,
    pub depth: Option<u8>,
    pub infinite: bool,
}

/// A command of the UCI loop, told by its first word: `uci`, `isready`, `ucinewgame`,
/// `position`, `go`, `d` (display), `stop`, `quit`, `bench` with its depth (6 unless a
/// number follows), `perft` and `perftd` with the depth that follows, if any.
#[derive(Clone, Copy, PartialEq, Eq, Debug, Structural)]
pub enum UciCommand {
    Uci,
    IsReady,
    NewGame,
    Position,
    Go,
    Display,
    Stop,
    Quit,
    Bench(u8),
    Perft(Option<u8>),
    PerftDivide(Option<u8>),
    Unknown,
}

/// The word `uci`.
pub open spec fn kw_cmd_uci() -> Seq<u8> {
    seq![117u8, 99u8, 105u8]
}

/// The word `isready`.
pub open spec fn kw_cmd_isready() -> Seq<u8> {
    seq![105u8, 115u8, 114u8, 101u8, 97u8, 100u8, 121u8]
}

/// The word `ucinewgame`.
pub open spec fn kw_cmd_ucinewgame() -> Seq<u8> {
    seq![117u8, 99u8, 105u8, 110u8, 101u8, 119u8, 103u8, 97u8, 109u8, 101u8]
}

/// The word `position`.
pub open spec fn kw_cmd_position() -> Seq<u8> {
    seq![112u8, 111u8, 115u8, 105u8, 116u8, 105u8, 111u8, 110u8]
}

/// The word `go`.
pub open spec fn kw_cmd_go() -> Seq<u8> {
    seq![103u8, 111u8]
}

/// The word `d`.
pub open spec fn kw_cmd_display() -> Seq<u8> {
    seq![100u8]
}

/// The word `stop`.
pub open spec fn kw_cmd_stop() -> Seq<u8> {
    seq![115u8, 116u8, 111u8, 112u8]
}

/// The word `quit`.
pub open spec fn kw_cmd_quit() -> Seq<u8> {
    seq![113u8, 117u8, 105u8, 116u8]
}

/// The word `bench`.
pub open spec fn kw_cmd_bench() -> Seq<u8> {
    seq![98u8, 101u8, 110u8, 99u8, 104u8]
}

/// The word `perft`.
pub open spec fn kw_cmd_perft() -> Seq<u8> {
    seq![112u8, 101u8, 114u8, 102u8, 116u8]
}

/// The word `perftd`.
pub open spec fn kw_cmd_perftd() -> Seq<u8> {
    seq![112u8, 101u8, 114u8, 102u8, 116u8, 100u8]
}

/// The second word of the line, read as an 8-bit unsigned number.
pub open spec fn second_number(toks: Seq<Seq<u8>>) -> Option<u8> {
    if toks.len() >= 2 {
        number_u8(toks[1])
    } else {
        None
    }
}

/// The command a line of words gives (see `UciCommand`).
pub open spec fn command_of(toks: Seq<Seq<u8>>) -> UciCommand {
    if toks.len() == 0 {
        UciCommand::Unknown
    } else {
        let w = toks[0];
        if w == kw_cmd_uci() {
            UciCommand::Uci
        } else if w == kw_cmd_isready() {
            UciCommand::IsReady
        } else if w == kw_cmd_ucinewgame() {
            UciCommand::NewGame
        } else if w == kw_cmd_position() {
            UciCommand::Position
        } else if w == kw_cmd_go() {
            UciCommand::Go
        } else if w == kw_cmd_display() {
            UciCommand::Display
        } else if w == kw_cmd_stop() {
            UciCommand::Stop
        } else if w == kw_cmd_quit() {
            UciCommand::Quit
        } else if w == kw_cmd_bench() {
            UciCommand::Bench(
                match second_number(toks) {
                    Some(d) => d,
                    None => 6,
                },
            )
        } else if w == kw_cmd_perft() {
            UciCommand::Perft(second_number(toks))
        } else if w == kw_cmd_perftd() {
            UciCommand::PerftDivide(second_number(toks))
        } else {
            UciCommand::Unknown
        }
    }
}

/// Reads the second word of the line as an 8-bit unsigned number.
fn second_word_number(parts: &[&str]) -> (r: Option<u8>)
    ensures
        r == second_number(toks_view(parts@)),
{
    if parts.len() < 2 {
        return None;
    }
    let w = parts[1].as_bytes();
    match parse_number(w, 255) {
        Some(v) => Some(v as u8),
        None => None,
    }
}

/// Tells the command of a line of words (see `command_of`).
pub fn uci_command(parts: &[&str]) -> (r: UciCommand)
    ensures
        r == command_of(toks_view(parts@)),
{
    if parts.len() == 0 {
        return UciCommand::Unknown;
    }
    let w = parts[0].as_bytes();
    let k_uci: [u8; 3] = [117, 99, 105];
    let k_isready: [u8; 7] = [105, 115, 114, 101, 97, 100, 121];
    let k_new: [u8; 10] = [117, 99, 105, 110, 101, 119, 103, 97, 109, 101];
    let k_position: [u8; 8] = [112, 111, 115, 105, 116, 105, 111, 110];
    let k_go: [u8; 2] = [103, 111];
    let k_d: [u8; 1] = [100];
    let k_stop: [u8; 4] = [115, 116, 111, 112];
    let k_quit: [u8; 4] = [113, 117, 105, 116];
    let k_bench: [u8; 5] = [98, 101, 110, 99, 104];
    let k_perft: [u8; 5] = [112, 101, 114, 102, 116];
    let k_perftd: [u8; 6] = [112, 101, 114, 102, 116, 100];
    proof {
        assert(k_uci@ =~= kw_cmd_uci());
        assert(k_isready@ =~= kw_cmd_isready());
        assert(k_new@ =~= kw_cmd_ucinewgame());
        assert(k_position@ =~= kw_cmd_position());
        assert(k_go@ =~= kw_cmd_go());
        assert(k_d@ =~= kw_cmd_display());
        assert(k_stop@ =~= kw_cmd_stop());
        assert(k_quit@ =~= kw_cmd_quit());
        assert(k_bench@ =~= kw_cmd_bench());
        assert(k_perft@ =~= kw_cmd_perft());
        assert(k_perftd@ =~= kw_cmd_perftd());
        assert(toks_view(parts@)[0] == w@);
    }
    if bytes_eq(w, &k_uci) {
        UciCommand::Uci
    } else if bytes_eq(w, &k_isready) {
        UciCommand::IsReady
    } else if bytes_eq(w, &k_new) {
        UciCommand::NewGame
    } else if bytes_eq(w, &k_position) {
        UciCommand::Position
    } else if bytes_eq(w, &k_go) {
        UciCommand::Go
    } else if bytes_eq(w, &k_d) {
        UciCommand::Display
    } else if bytes_eq(w, &k_stop) {
        UciCommand::Stop
    } else if bytes_eq(w, &k_quit) {
        UciCommand::Quit
    } else if bytes_eq(w, &k_bench) {
        UciCommand::Bench(
            match second_word_number(parts) {
                Some(d) => d,
                None => 6,
            },
        )
    } else if bytes_eq(w, &k_perft) {
        UciCommand::Perft(second_word_number(parts))
    } else if bytes_eq(w, &k_perftd) {
        UciCommand::PerftDivide(second_word_number(parts))
    } else {
        UciCommand::Unknown
    }
}

/// The depth a `go` command searches to: the one it names, else 255.
pub fn go_depth(params: &GoParams) -> (r: u8)
    ensures
        r == match params.depth {
            Some(d) => d,
            None => 255u8,
        },
{
    match params.depth {
        Some(d) => d,
        None => 255,
    }
}

/// A word read as a 64-bit unsigned number, as Rust's `parse` reads it.
pub open spec fn number_u64(v: Seq<u8>) -> Option<u64> {
    match parse_unsigned(v, 0xFFFF_FFFF_FFFF_FFFF) {
        Some(x) => Some(x as u64),
        None => None,
    }
}

/// A word read as an 8-bit unsigned number.
pub open spec fn number_u8(v: Seq<u8>) -> Option<u8> {
    match parse_unsigned(v, 255) {
        Some(x) => Some(x as u8),
        None => None,
    }
}

/// The words of `go` that take a value.
pub open spec fn takes_value(t: Seq<u8>) -> bool {
    t == kw_wtime() || t == kw_btime() || t == kw_winc() || t == kw_binc() || t == kw_depth() || t
        == kw_movetime()
}

/// The limits after the word `t` with value `v`.
pub open spec fn with_value(p: GoParams, t: Seq<u8>, v: Seq<u8>) -> GoParams {
    if t == kw_wtime() {
        GoParams { wtime: number_u64(v), ..p }
    } else if t == kw_btime() {
        GoParams { btime: number_u64(v), ..p }
    } else if t == kw_winc() {
        GoParams { winc: number_u64(v), ..p }
    } else if t == kw_binc() {
        GoParams { binc: number_u64(v), ..p }
    } else if t == kw_depth() {
        GoParams { depth: number_u8(v), ..p }
    } else {
        GoParams { movetime: number_u64(v), ..p }
    }
}

/// Reads the words of a `go` command into `p`: a word that takes a value sets its
/// field from the next word (none when that word is no number; the command fails when
/// there is no next word), `infinite` sets that flag, other words are passed over.
pub open spec fn go_apply(p: GoParams, toks: Seq<Seq<u8>>) -> Option<GoParams>
    decreases toks.len(),
{
    if toks.len() == 0 {
        Some(p)
    } else {
        let t = toks[0];
        let rest = toks.subrange(1, toks.len() as int);
        if takes_value(t) {
            if rest.len() == 0 {
                None
            } else {
                go_apply(with_value(p, t, rest[0]), rest.subrange(1, rest.len() as int))
            }
        } else if t == kw_infinite() {
            go_apply(GoParams { infinite: true, ..p }, rest)
        } else {
            go_apply(p, rest)
        }
    }
}

/// No limits at all.
pub open spec fn no_limits() -> GoParams {
    GoParams { movetime: None, wtime: None, btime: None, winc: None, binc: None, depth: None, infinite: false }
}

/// Reads the words after `go` (see `go_apply`).
pub fn parse_go(parts: &[&str]) -> (r: Option<GoParams>)
    ensures
        r == go_apply(no_limits(), toks_view(parts@)),
{
    let kw_w: [u8; 5] = [119, 116, 105, 109, 101];
    let kw_b: [u8; 5] = [98, 116, 105, 109, 101];
    let kw_wi: [u8; 4] = [119, 105, 110, 99];
    let kw_bi: [u8; 4] = [98, 105, 110, 99];
    let kw_d: [u8; 5] = [100, 101, 112, 116, 104];
    let kw_m: [u8; 8] = [109, 111, 118, 101, 116, 105, 109, 101];
    let kw_i: [u8; 8] = [105, 110, 102, 105, 110, 105, 116, 101];
    proof {
        assert(kw_w@ =~= kw_wtime());
        assert(kw_b@ =~= kw_btime());
        assert(kw_wi@ =~= kw_winc());
        assert(kw_bi@ =~= kw_binc());
        assert(kw_d@ =~= kw_depth());
        assert(kw_m@ =~= kw_movetime());
        assert(kw_i@ =~= kw_infinite());
    }
    let ghost toks = toks_view(parts@);
    let mut params = GoParams { movetime: None, wtime: None, btime: None, winc: None, binc: None, depth: None, infinite: false };
    let mut i: usize = 0;
    proof {
        assert(toks.subrange(0, toks.len() as int) =~= toks);
        assert(params == no_limits());
    }
    while i < parts.len()
        invariant
            toks == toks_view(parts@),
            i <= parts.len(),
            go_apply(no_limits(), toks) == go_apply(params, toks.subrange(i as int, toks.len() as int)),
            kw_w@ == kw_wtime(),
            kw_b@ == kw_btime(),
            kw_wi@ == kw_winc(),
            kw_bi@ == kw_binc(),
            kw_d@ == kw_depth(),
            kw_m@ == kw_movetime(),
            kw_i@ == kw_infinite(),
        decreases parts.len() - i,
    {
        let part = parts[i].as_bytes();
        let ghost rest = toks.subrange(i as int, toks.len() as int);
        proof {
            assert(rest[0] == part@);
            assert(rest.subrange(1, rest.len() as int) =~= toks.subrange(i + 1, toks.len() as int));
        }
        let is_w = bytes_eq(part, &kw_w);
        let is_b = bytes_eq(part, &kw_b);
        let is_wi = bytes_eq(part, &kw_wi);
        let is_bi = bytes_eq(part, &kw_bi);
        let is_d = bytes_eq(part, &kw_d);
        let is_m = bytes_eq(part, &kw_m);
        if is_w || is_b || is_wi || is_bi || is_d || is_m {
            if i + 1 >= parts.len() {
                return None;
            }
            let v = parts[i + 1].as_bytes();
            proof {
                assert(rest.subrange(1, rest.len() as int)[0] == v@);
                assert(rest.subrange(1, rest.len() as int).subrange(1, rest.len() - 1) =~= toks.subrange(i + 2, toks.len() as int));
            }
            if is_w {
                params.wtime = crate::fen::parse_number(v, 0xFFFF_FFFF_FFFF_FFFF);
            } else if is_b {
                params.btime = crate::fen::parse_number(v, 0xFFFF_FFFF_FFFF_FFFF);
            } else if is_wi {
                params.winc = crate::fen::parse_number(v, 0xFFFF_FFFF_FFFF_FFFF);
            } else if is_bi {
                params.binc = crate::fen::parse_number(v, 0xFFFF_FFFF_FFFF_FFFF);
            } else if is_d {
                params.depth = match crate::fen::parse_number(v, 255) {
                    Some(x) => Some(x as u8),
                    None => None,
                };
            } else {
                params.movetime = crate::fen::parse_number(v, 0xFFFF_FFFF_FFFF_FFFF);
            }
            i = i + 2;
        } else {
            if bytes_eq(part, &kw_i) {
                params.infinite = true;
            }
            i = i + 1;
        }
    }
    proof {
        assert(toks.subrange(i as int, toks.len() as int) =~= Seq::<Seq<u8>>::empty());
    }
    Some(params)
}

/// The time to spend on a move: the move time when given, else for the side to move a
/// twentieth of its clock plus half its increment, but no more than its clock less 50 ms
/// (none without a clock).
pub open spec fn budget_spec(params: GoParams, side: Color) -> Option<u64> {
    match params.movetime {
        Some(mt) => Some(mt),
        None => {
            let (time, inc) = match side {
                Color::White => (params.wtime, match params.winc { Some(i) => i, None => 0u64 }),
                Color::Black => (params.btime, match params.binc { Some(i) => i, None => 0u64 }),
            };
            match time {
                Some(t) => {
                    let share = t / 20 + inc / 2;
                    let cap = if t >= 50 { t - 50 } else { 0 };
                    Some((if share < cap { share } else { cap }) as u64)
                },
                None => None,
            }
        },
    }
}

/// The time to spend on a move, in milliseconds (see `budget_spec`).
pub fn compute_budget_ms(params: &GoParams, side: Color) -> (r: Option<u64>)
    ensures
        r == budget_spec(*params, side),
{
    if let Some(mt) = params.movetime {
        return Some(mt);
    }
    let (time, inc) = match side {
        Color::White => (params.wtime, match params.winc { Some(i) => i, None => 0 }),
        Color::Black => (params.btime, match params.binc { Some(i) => i, None => 0 }),
    };
    match time {
        Some(t) => {
            let share = t / 20 + inc / 2;
            let cap = t.saturating_sub(50);
            Some(if share < cap { share } else { cap })
        },
        None => None,
    }
}

pub open spec fn kw_startpos() -> Seq<u8> {
    seq![115u8, 116, 97, 114, 116, 112, 111, 115]
}

pub open spec fn kw_fen() -> Seq<u8> {
    seq![102u8, 101, 110]
}

pub open spec fn kw_moves() -> Seq<u8> {
    seq![109u8, 111, 118, 101, 115]
}

/// The index of the first word at or after `i` that is `moves`, else the number of words.
pub open spec fn moves_index(toks: Seq<Seq<u8>>, i: int) -> int
    decreases toks.len() - i,
{
    if i >= toks.len() {
        toks.len() as int
    } else if toks[i] == kw_moves() {
        i
    } else {
        moves_index(toks, i + 1)
    }
}

/// The words joined by single spaces.
pub open spec fn join_words(toks: Seq<Seq<u8>>) -> Seq<u8>
    decreases toks.len(),
{
    if toks.len() == 0 {
        Seq::empty()
    } else if toks.len() == 1 {
        toks[0]
    } else {
        join_words(toks.drop_last()) + seq![32u8] + toks.last()
    }
}

/// The index of the first word `moves` at or after `from` (the number of words when
/// there is none).
pub fn find_moves_word(parts: &[&str], from: usize) -> (r: usize)
    requires
        from <= parts.len(),
    ensures
        r as int == moves_index(toks_view(parts@), from as int),
        from <= r <= parts.len(),
{
    let kw: [u8; 5] = [109, 111, 118, 101, 115];
    proof {
        assert(kw@ =~= kw_moves());
    }
    let ghost toks = toks_view(parts@);
    let mut i = from;
    while i < parts.len()
        invariant
            toks == toks_view(parts@),
            from <= i <= parts.len(),
            kw@ == kw_moves(),
            moves_index(toks, from as int) == moves_index(toks, i as int),
        decreases parts.len() - i,
    {
        if bytes_eq(parts[i].as_bytes(), &kw) {
            return i;
        }
        i = i + 1;
    }
    i
}

/// The words `parts[a..b]` joined by single spaces.
pub fn join_parts(parts: &[&str], a: usize, b: usize) -> (v: Vec<u8>)
    requires
        a <= b <= parts.len(),
    ensures
        v@ == join_words(toks_view(parts@).subrange(a as int, b as int)),
{
    let ghost toks = toks_view(parts@);
    let mut v: Vec<u8> = Vec::new();
    let mut i = a;
    proof {
        assert(toks.subrange(a as int, a as int) =~= Seq::<Seq<u8>>::empty());
    }
    while i < b
        invariant
            toks == toks_view(parts@),
            a <= i <= b <= parts.len(),
            v@ == join_words(toks.subrange(a as int, i as int)),
        decreases b - i,
    {
        let w = parts[i].as_bytes();
        let ghost before = v@;
        if i > a {
            v.push(32u8);
        }
        let mut j: usize = 0;
        while j < w.len()
            invariant
                j <= w.len(),
                i > a ==> v@ == before + seq![32u8] + w@.take(j as int),
                i == a ==> v@ == before + w@.take(j as int),
            decreases w.len() - j,
        {
            v.push(w[j]);
            j = j + 1;
            proof {
                assert(w@.take(j as int) =~= w@.take(j - 1).push(w@[j - 1]));
            }
        }
        proof {
            let s = toks.subrange(a as int, i + 1);
            assert(w@.take(w@.len() as int) =~= w@);
            assert(s.drop_last() =~= toks.subrange(a as int, i as int));
            assert(s.last() == w@);
            if i == a {
                assert(toks.subrange(a as int, i as int).len() == 0);
                assert(before =~= Seq::<u8>::empty());
                assert(v@ =~= w@);
            } else {
                assert(v@ =~= before + seq![32u8] + w@);
            }
        }
        i = i + 1;
    }
    v
}

/// The text of the FEN in a `position fen ...` command: the words after `fen` up to
/// `moves`, joined by spaces.
pub open spec fn fen_text(toks: Seq<Seq<u8>>) -> Seq<u8> {
    join_words(toks.subrange(1, moves_index(toks, 1)))
}

/// The state fields of the initial position.
pub open spec fn start_state() -> StateInfo {
    StateInfo {
        castle_rights: 15,
        active_color: Color::White,
        half_move_clock: 0,
        full_move_number: 1,
        ep_square: None,
    }
}

/// The position a `position` command starts from: `startpos`, or `fen` and a FEN that
/// reads; none for anything else.
pub open spec fn position_base(toks: Seq<Seq<u8>>) -> Option<(Seq<Cell>, StateInfo)> {
    if toks.len() == 0 {
        None
    } else if toks[0] == kw_startpos() {
        Some((crate::board::start_cells(), start_state()))
    } else if toks[0] == kw_fen() {
        match spec_fen(fen_text(toks)) {
            Ok(p) => Some(p),
            Err(_) => None,
        }
    } else {
        None
    }
}

/// Where the moves of a `position` command start: after the word `moves` that follows
/// the position (the number of words when no such word follows it).
pub open spec fn first_move_index(toks: Seq<Seq<u8>>) -> int {
    let k = if toks[0] == kw_startpos() { 1 } else { moves_index(toks, 1) };
    if k < toks.len() && toks[k] == kw_moves() { k + 1 } else { toks.len() as int }
}

/// The position after playing, from the board `b` and state `si`, the moves that the
/// words `toks` name in UCI notation: a word is played when a generated move reads so
/// and making it overflows no counter; the first word for which that fails ends the line.
pub open spec fn line_result(b: crate::board::Board, si: StateInfo, toks: Seq<Seq<u8>>) -> (crate::board::Board, StateInfo)
    decreases toks.len(),
{
    if toks.len() == 0 {
        (b, si)
    } else if exists|m: Move| #[trigger] gen_move(b, si, false, m) && uci_bytes(m) == toks[0] && counters_ok(b.cells(), si, m) {
        let m = choose|m: Move| #[trigger] gen_move(b, si, false, m) && uci_bytes(m) == toks[0] && counters_ok(b.cells(), si, m);
        line_result(
            crate::perft::child_board(b, si, m),
            state_after_move(b.cells(), si, m),
            toks.subrange(1, toks.len() as int),
        )
    } else {
        (b, si)
    }
}

/// A word that names the legal move `m`, which overflows no counter, moves the line on
/// to the position after `m`.
proof fn lemma_line_step(mid: BoardState, m: Move, rest: Seq<Seq<u8>>, after: BoardState)
    requires
        mid.wf(),
        legal_position(mid.board.cells(), mid.state_info),
        rest.len() > 0,
        gen_move(mid.board, mid.state_info, false, m),
        uci_bytes(m) == rest[0],
        counters_ok(mid.board.cells(), mid.state_info, m),
        after.wf(),
        after.board.cells() == cells_after_move(mid.board.cells(), mid.state_info.active_color, m),
        after.state_info == state_after_move(mid.board.cells(), mid.state_info, m),
    ensures
        line_result(mid.board, mid.state_info, rest) == line_result(
            after.board,
            after.state_info,
            rest.subrange(1, rest.len() as int),
        ),
{
    let chosen = choose|mm: Move|
        #[trigger] gen_move(mid.board, mid.state_info, false, mm) && uci_bytes(mm) == rest[0]
            && counters_ok(mid.board.cells(), mid.state_info, mm);
    lemma_uci_unique(mid.board, mid.state_info, chosen, m);
    let c = crate::perft::child_board(mid.board, mid.state_info, m);
    assert(c.wf() && c.cells() == after.board.cells());
    crate::board::Board::lemma_board_ext(after.board, c);
}

/// Plays the moves `parts[start..]`, given in UCI notation, from a legal position: each
/// word is looked up among the generated moves and played; the first word that names
/// none (or whose move would overflow a counter) ends the line (see `line_result`).
fn play_line(bs: &mut BoardState, parts: &[&str], start: usize)
    requires
        start <= parts.len(),
        old(bs).wf(),
        legal_position(old(bs).board.cells(), old(bs).state_info),
    ensures
        final(bs).wf(),
        (final(bs).board, final(bs).state_info) == line_result(
            old(bs).board,
            old(bs).state_info,
            toks_view(parts@).subrange(start as int, parts@.len() as int),
        ),
{
    let ghost toks = toks_view(parts@);
    let ghost b0 = *bs;
    let ghost n = parts@.len() as int;
    let mut i = start;
    while i < parts.len()
        invariant
            toks == toks_view(parts@),
            n == parts@.len(),
            start <= i <= parts.len(),
            bs.wf(),
            legal_position(bs.board.cells(), bs.state_info),
            line_result(b0.board, b0.state_info, toks.subrange(start as int, n)) == line_result(
                bs.board,
                bs.state_info,
                toks.subrange(i as int, n),
            ),
        ensures
            bs.wf(),
            (bs.board, bs.state_info) == line_result(b0.board, b0.state_info, toks.subrange(start as int, n)),
        decreases parts.len() - i,
    {
        proof {
            lemma_legal_ready(bs.board, bs.state_info);
        }
        let legal = generate_moves(bs, false);
        let word = parts[i].as_bytes();
        let ghost rest = toks.subrange(i as int, n);
        proof {
            assert(rest[0] == word@);
            assert(rest.subrange(1, rest.len() as int) =~= toks.subrange(i + 1, n));
        }
        let mut k: usize = 0;
        let mut found: Option<Move> = None;
        while k < legal.len()
            invariant
                k <= legal.len(),
                forall|x: int| 0 <= x < legal@.len() ==> gen_move(bs.board, bs.state_info, false, #[trigger] legal@[x]),
                bs.wf(),
                legal_position(bs.board.cells(), bs.state_info),
                found matches Some(m) ==> gen_move(bs.board, bs.state_info, false, m) && uci_bytes(m) == word@,
                found is None ==> forall|x: int| 0 <= x < k ==> uci_bytes(#[trigger] legal@[x]) != word@,
                forall|mm: Move| gen_move(bs.board, bs.state_info, false, mm) ==> #[trigger] legal@.contains(mm),
            ensures
                found is None ==> k == legal.len(),
                found matches Some(m) ==> gen_move(bs.board, bs.state_info, false, m) && uci_bytes(m) == word@,
                found is None ==> forall|x: int| 0 <= x < k ==> uci_bytes(#[trigger] legal@[x]) != word@,
                forall|mm: Move| gen_move(bs.board, bs.state_info, false, mm) ==> #[trigger] legal@.contains(mm),
            decreases legal.len() - k,
        {
            let m = legal[k];
            proof {
                law_generated_move_legal(bs.board, bs.state_info, false, m);
            }
            let text = m.to_uci_bytes();
            if bytes_eq(text.as_slice(), word) {
                found = Some(m);
                break;
            }
            k = k + 1;
        }
        let m = match found {
            Some(m) => m,
            None => {
                proof {
                    assert(!exists|mm: Move|
                        #[trigger] gen_move(bs.board, bs.state_info, false, mm) && uci_bytes(mm) == rest[0]
                            && counters_ok(bs.board.cells(), bs.state_info, mm)) by {
                        assert forall|mm: Move| #[trigger] gen_move(bs.board, bs.state_info, false, mm) implies uci_bytes(mm) != rest[0] by {
                            assert(legal@.contains(mm));
                            let x = choose|x: int| 0 <= x < legal@.len() && legal@[x] == mm;
                            assert(uci_bytes(legal@[x]) != word@);
                        }
                    }
                    assert(line_result(bs.board, bs.state_info, rest) == (bs.board, bs.state_info));
                }
                break;
            },
        };
        proof {
            law_generated_move_legal(bs.board, bs.state_info, false, m);
        }
        let from = m.source();
        proof {
            bs.board.lemma_mailbox_cells(from.0 as int);
        }
        let piece = bs.board.get_piece_at(from);
        let counters = (piece == Piece::Pawn || m.flags().is_capture() || bs.state_info.half_move_clock < 255) && (
        bs.state_info.active_color == Color::White || bs.state_info.full_move_number < 0xFFFF_FFFF);
        if !counters {
            proof {
                assert(!exists|mm: Move|
                    #[trigger] gen_move(bs.board, bs.state_info, false, mm) && uci_bytes(mm) == rest[0]
                        && counters_ok(bs.board.cells(), bs.state_info, mm)) by {
                    assert forall|mm: Move|
                        #[trigger] gen_move(bs.board, bs.state_info, false, mm) && uci_bytes(mm) == rest[0] implies !counters_ok(
                        bs.board.cells(),
                        bs.state_info,
                        mm,
                    ) by {
                        lemma_uci_unique(bs.board, bs.state_info, mm, m);
                    }
                }
                assert(line_result(bs.board, bs.state_info, rest) == (bs.board, bs.state_info));
            }
            break;
        }
        let ghost mid = *bs;
        assert(counters_ok(mid.board.cells(), mid.state_info, m));
        bs.make_move(m);
        proof {
            lemma_line_step(mid, m, rest, *bs);
        }
        i = i + 1;
    }
}

/// Reads the words after `position`: `startpos` or `fen` and a FEN's fields, then
/// optionally `moves` and moves in UCI notation, played while each names a generated move
/// (see `line_result`); from a position that is not legal no move is played. None when
/// the position is neither `startpos` nor a FEN that reads.
pub fn handle_position(parts: &[&str]) -> (r: Option<BoardState>)
    ensures
        match position_base(toks_view(parts@)) {
            None => r is None,
            Some((cells, si)) => r matches Some(bs) && exists|b0: BoardState|
                #![trigger b0.board.cells(), b0.state_info]
                b0.wf() && b0.board.cells() == cells && b0.state_info == si && b0.history() == Seq::<u64>::empty()
                    && (!legal_position(cells, si) ==> bs == b0) && (legal_position(cells, si) ==> (bs.board, bs.state_info)
                    == line_result(
                    b0.board,
                    si,
                    toks_view(parts@).subrange(first_move_index(toks_view(parts@)), parts@.len() as int),
                )),
        },
{
    let ghost toks = toks_view(parts@);
    if parts.len() == 0 {
        return None;
    }
    let kw_s: [u8; 8] = [115, 116, 97, 114, 116, 112, 111, 115];
    let kw_f: [u8; 3] = [102, 101, 110];
    let kw_m: [u8; 5] = [109, 111, 118, 101, 115];
    proof {
        assert(kw_s@ =~= kw_startpos());
        assert(kw_f@ =~= kw_fen());
        assert(kw_m@ =~= kw_moves());
    }
    let first = parts[0].as_bytes();
    let (mut bs, k) = if bytes_eq(first, &kw_s) {
        (BoardState::start_pos(), 1usize)
    } else if bytes_eq(first, &kw_f) {
        let end = find_moves_word(parts, 1);
        let text = join_parts(parts, 1, end);
        match BoardState::from_fen_bytes(text.as_slice()) {
            Ok(b) => (b, end),
            Err(_) => {
                return None;
            },
        }
    } else {
        return None;
    };
    let start = if k < parts.len() && bytes_eq(parts[k].as_bytes(), &kw_m) {
        k + 1
    } else {
        parts.len()
    };
    assert(start == first_move_index(toks));
    let ghost b0 = bs;
    if !crate::legal_check::is_legal_position(&bs) {
        return Some(bs);
    }
    play_line(&mut bs, parts, start);
    Some(bs)
}

/// Two moves that the generator allows in one legal position and that read the same
/// in UCI notation are the same move.
pub proof fn lemma_uci_unique(b: crate::board::Board, si: StateInfo, m1: Move, m2: Move)
    requires
        b.wf(),
        legal_position(b.cells(), si),
        gen_move(b, si, false, m1),
        gen_move(b, si, false, m2),
        uci_bytes(m1) == uci_bytes(m2),
    ensures
        m1 == m2,
{
    match si.ep_square {
        Some(e) => {
            assert(b.cells()[e.0 as int] is None);
        },
        None => {},
    }
    crate::moves::lemma_move_squares(m1);
    crate::moves::lemma_move_squares(m2);
    let f1 = m1.from_sq().0 as int;
    let f2 = m2.from_sq().0 as int;
    let t1 = m1.to_sq().0 as int;
    let t2 = m2.to_sq().0 as int;
    let u1 = uci_bytes(m1);
    let u2 = uci_bytes(m2);
    assert(u1[0] == u2[0] && u1[1] == u2[1] && u1[2] == u2[2] && u1[3] == u2[3]);
    assert(f1 % 8 == f2 % 8 && f1 / 8 == f2 / 8);
    assert(t1 % 8 == t2 % 8 && t1 / 8 == t2 / 8);
    assert(f1 == f2 && t1 == t2);
    assert(m1.flag().spec_is_promotion() == m2.flag().spec_is_promotion()) by {
        assert(u1.len() == u2.len());
    }
    if m1.flag().spec_is_promotion() {
        assert(u1[4] == u2[4]);
        assert(m1.flag().spec_promoted_piece() == m2.flag().spec_promoted_piece());
    }
    assert(m1.flag() == m2.flag());
    crate::moves::lemma_move_eq(m1, m2);
}

} // verus!
