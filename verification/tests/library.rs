use chessr::attacks::{compute_between, compute_attacks, compute_blockers, KNIGHT_OFFSETS, compute_sliding_attacks, BISHOP_OFFSETS, ROOK_OFFSETS};
use chessr::bench::format_thousands;
use chessr::board_state::BoardState;
use chessr::find_magic::{find_magic, Xorshift64};
use chessr::magic::{compute_magic, pext_index};
use chessr::env::{env_value, get_lichess_token};
use chessr::eval::{bishop_pair, eval, game_phase, mobility, PieceSquareTables};
use chessr::generate::{generate_moves, is_check};
use chessr::legal_check::{is_legal_position, is_square_attacked_by};
use chessr::movegen::{generate_castles, generate_direct_moves};
use chessr::pawn_batch::batch_generate_pawn_moves;
use chessr::board::Board;
use chessr::state_info::StateInfo;
use chessr::moves::{Move, MoveFlag};
use chessr::order::order_moves;
use chessr::search::{budget_spent, depth_cap, quiescence_search, search, search_root, SearchCtx};
use chessr::perft::{number_of_moves, perft_devide};
use chessr::piece::{Color, Piece};
use chessr::square::{Sq64, Sq88};
use chessr::state_info::FenErr;
use chessr::transposition::{Bound, TranspositionEntry, TranspositionTable, MATE_SCORE};
use chessr::uci::{compute_budget_ms, go_depth, handle_position, parse_go, uci_command, UciCommand};

const START: &str = "rnbqkbnr/pppppppp/8/8/8/8/PPPPPPPP/RNBQKBNR w KQkq - 0 1";

fn fen_error(fen: &str) -> FenErr {
    match BoardState::from_fen(fen) {
        Ok(_) => panic!("the FEN was read"),
        Err(e) => e,
    }
}

#[test]
fn fen_error_variants() {
    assert_eq!(fen_error("8/8/8/8/8/8/8/8 w - -"), FenErr::InvalidFormat);
    assert_eq!(fen_error("8/8/8/8/8/8/8/7X w - - 0 1"), FenErr::InvalidCharInPiecePlacement);
    assert_eq!(fen_error("8/8/8/8/8/8/8/7 w - - 0 1"), FenErr::InvalidRankLength);
    assert_eq!(fen_error("8/8/8/8/8/8/8 w - - 0 1"), FenErr::InvalidRankCount);
    assert_eq!(fen_error("8/8/8/8/8/8/8/8 x - - 0 1"), FenErr::InvalidSideToMove);
    assert_eq!(fen_error("8/8/8/8/8/8/8/8 w - - 256 1"), FenErr::InvalidHalfmoveClock);
    assert_eq!(fen_error("8/8/8/8/8/8/8/8 w - - 50 1"), FenErr::InvalidHalfmoveClock);
    assert!(BoardState::from_fen("4k3/8/8/8/8/8/8/4K3 w - - 49 1").is_ok());
    assert_eq!(fen_error("8/8/8/8/8/8/8/8 w - - 0 x"), FenErr::InvalidFullmoveNumber);
    assert_eq!(fen_error("8/8/8/8/8/8/8/8 w - z9 0 1"), FenErr::InvalidSquare);
    assert_eq!(fen_error("8/8/8/8/8/8/8/8 w X - 0 1"), FenErr::InvalidCastleRights);
}

#[test]
fn fen_fields_by_the_documented_rules() {
    // The en passant square lies on rank 3 or 6.
    assert_eq!(fen_error("4k3/8/8/8/8/8/8/4K3 w - e4 0 1"), FenErr::InvalidSquare);
    assert!(BoardState::from_fen("4k3/8/8/8/8/8/8/4K3 b - e3 0 1").is_ok());
    // A castling letter may come only once.
    assert_eq!(fen_error("4k3/8/8/8/8/8/8/4K3 w Kkkq - 0 1"), FenErr::InvalidCastleRights);
    assert!(BoardState::from_fen("4k3/8/8/8/8/8/8/4K3 w kq - 0 1").is_ok());
    // A rank of more than eight squares is an error, on the top rank too.
    assert_eq!(fen_error("8k/8/8/8/8/8/8/8 w - - 0 1"), FenErr::InvalidRankLength);
    assert_eq!(fen_error("8/8/8/8/8/8/8/8p w - - 0 1"), FenErr::InvalidRankLength);
    assert_eq!(fen_error("8/7pp/8/8/8/8/8/8 w - - 0 1"), FenErr::InvalidRankLength);
    // Any Unicode whitespace separates the fields.
    let wide = "4k3/8/8/8/8/8/8/4K3\u{3000}w\u{00A0}-\u{2003}-\t0\u{3000}1";
    assert!(BoardState::from_fen(wide).is_ok());
    assert_eq!(BoardState::from_fen(wide).unwrap(), BoardState::from_fen("4k3/8/8/8/8/8/8/4K3 w - - 0 1").unwrap());
}

#[test]
fn make_then_undo_gives_back_the_position() {
    let start = BoardState::start_pos();
    let mut bs = BoardState::start_pos();
    let m = Move::new_flags(Sq64(12), Sq64(28), MoveFlag::DoublePawnPush);
    let undo = bs.make_move(m);
    assert_eq!(bs.state_info.active_color, Color::Black);
    assert_eq!(bs.state_info.ep_square, Some(Sq64(20)));
    assert_eq!(bs.board.get_piece_at(Sq64(28)), Piece::Pawn);
    assert!(!bs.board.is_occupied(Sq64(12)));
    assert_ne!(bs.hash(), start.hash());
    bs.undo_move(&undo);
    assert_eq!(bs, start);
}

#[test]
fn repetition_needs_two_earlier_occurrences() {
    let mut bs = BoardState::start_pos();
    let out_and_back = [(6u8, 21u8), (62, 45), (21, 6), (45, 62)];
    for (from, to) in out_and_back {
        bs.make_move(Move::new(Sq64(from), Sq64(to)));
    }
    assert!(!bs.is_repetition());
    for (from, to) in out_and_back {
        bs.make_move(Move::new(Sq64(from), Sq64(to)));
    }
    assert!(bs.is_repetition());
}

#[test]
fn start_position_has_twenty_moves_and_no_check() {
    let bs = BoardState::start_pos();
    assert_eq!(generate_moves(&bs, false).len(), 20);
    assert_eq!(generate_moves(&bs, true).len(), 0);
    assert!(!is_check(&bs));
    let bs = BoardState::from_fen("4k3/8/8/8/8/8/8/4RK2 b - - 0 1").unwrap();
    assert!(is_check(&bs));
}

#[test]
fn legality_of_positions() {
    assert!(is_legal_position(&BoardState::start_pos()));
    let two_kings = BoardState::from_fen("4k3/8/8/8/8/8/8/3KK3 w - - 0 1").unwrap();
    assert!(!is_legal_position(&two_kings));
    let mover_gives_check = BoardState::from_fen("4k3/8/8/8/8/8/8/4RK2 w - - 0 1").unwrap();
    assert!(!is_legal_position(&mover_gives_check));
    let pawn_on_first_rank = BoardState::from_fen("4k3/8/8/8/8/8/8/P3K3 w - - 0 1").unwrap();
    assert!(!is_legal_position(&pawn_on_first_rank));
    let rights_without_rook = BoardState::from_fen("4k3/8/8/8/8/8/8/4K3 w K - 0 1").unwrap();
    assert!(!is_legal_position(&rights_without_rook));
}

#[test]
fn attacked_squares() {
    let bs = BoardState::start_pos();
    // e3 is attacked by the pawns on d2 and f2, e5 by nothing of White
    assert!(is_square_attacked_by(Sq88(0x24), Color::White, bs.board()));
    assert!(!is_square_attacked_by(Sq88(0x44), Color::White, bs.board()));
    assert!(is_square_attacked_by(Sq88(0x55), Color::Black, bs.board()));
}

#[test]
fn evaluation_values() {
    let tables = PieceSquareTables::flat();
    let start = BoardState::start_pos();
    assert_eq!(eval(&start, &tables), 0);
    assert_eq!(mobility(&start.board, Color::White), 16);
    assert_eq!(game_phase(&start.board), 24);
    assert_eq!(bishop_pair(&start.board, Color::White), 30);
    // the queen on d1 reaches 17 squares: 900 material plus 17 mobility
    let queen = BoardState::from_fen("4k3/8/8/8/8/8/8/3QK3 w - - 0 1").unwrap();
    assert_eq!(eval(&queen, &tables), 917);
    let queen = BoardState::from_fen("4k3/8/8/8/8/8/8/3QK3 b - - 0 1").unwrap();
    assert_eq!(eval(&queen, &tables), -917);
}

#[test]
fn table_gives_back_what_was_stored() {
    let mut tt = TranspositionTable::new();
    let hash = 0x1234_5678_9abc_def0u64;
    assert!(tt.get_entry(hash).is_none());
    let m = Move::new(Sq64(12), Sq64(20));
    tt.insert(TranspositionEntry::new(Some(m), 5, 42, hash, Bound::Exact, 3));
    let e = tt.get_entry(hash).unwrap();
    assert_eq!(e.best_move, Some(m));
    assert_eq!(e.depth, 5);
    assert_eq!(e.score, 42);
    assert_eq!(e.hash, hash);
    assert_eq!(e.node_type, Bound::Exact);
    // the same slot, another hash: no entry
    assert!(tt.get_entry(hash ^ 1).is_none());
}

#[test]
fn mate_scores_are_stored_by_distance() {
    let mate_in_three = MATE_SCORE - 3;
    let e = TranspositionEntry::new(None, 1, mate_in_three, 7, Bound::Exact, 2);
    assert_eq!(e.score, mate_in_three + 2);
    assert_eq!(e.get_score(2), mate_in_three);
    assert_eq!(e.get_score(4), mate_in_three - 2);
    let e = TranspositionEntry::new(None, 1, -mate_in_three, 7, Bound::Exact, 2);
    assert_eq!(e.get_score(2), -mate_in_three);
    let e = TranspositionEntry::new(None, 1, 250, 7, Bound::Lower, 9);
    assert_eq!(e.get_score(0), 250);
    assert!(e.is_valid(100, 200, 0));
    assert!(!e.is_valid(300, 400, 0));
}

#[test]
fn table_move_goes_first_then_captures() {
    let bs = BoardState::from_fen("4k3/8/8/3p4/4P3/8/8/4K3 w - - 0 1").unwrap();
    let mut moves = generate_moves(&bs, false);
    let n = moves.len();
    let push = Move::new(Sq64(28), Sq64(36));
    order_moves(&bs, &mut moves, Some(push), [None, None]);
    assert_eq!(moves.len(), n);
    assert_eq!(moves[0], push);
    assert_eq!(moves[1], Move::new_flags(Sq64(28), Sq64(35), MoveFlag::Capture));
}

#[test]
fn go_words_and_budget() {
    let p = parse_go(&["wtime", "60000", "btime", "30000", "winc", "1000"]).unwrap();
    assert_eq!(p.wtime, Some(60000));
    assert_eq!(p.btime, Some(30000));
    assert_eq!(p.winc, Some(1000));
    assert_eq!(p.binc, None);
    assert_eq!(compute_budget_ms(&p, Color::White), Some(3500));
    assert_eq!(compute_budget_ms(&p, Color::Black), Some(1500));
    let p = parse_go(&["wtime", "60"]).unwrap();
    assert_eq!(compute_budget_ms(&p, Color::White), Some(3));
    let p = parse_go(&["wtime", "40"]).unwrap();
    assert_eq!(compute_budget_ms(&p, Color::White), Some(0));
    let p = parse_go(&["movetime", "250", "wtime", "1000"]).unwrap();
    assert_eq!(compute_budget_ms(&p, Color::White), Some(250));
    let p = parse_go(&["infinite", "depth", "7"]).unwrap();
    assert!(p.infinite);
    assert_eq!(p.depth, Some(7));
    assert_eq!(compute_budget_ms(&p, Color::Black), None);
    let p = parse_go(&["depth", "300", "nodes", "5"]).unwrap();
    assert_eq!(p.depth, None);
    assert!(parse_go(&["depth"]).is_none());
}

#[test]
fn position_commands() {
    let bs = handle_position(&["startpos"]).unwrap();
    assert_eq!(bs, BoardState::start_pos());
    let bs = handle_position(&["startpos", "moves", "e2e4", "e7e5", "g1f3"]).unwrap();
    assert_eq!(bs.state_info.active_color, Color::Black);
    assert_eq!(bs.state_info.full_move_number, 2);
    assert_eq!(bs.board.get_piece_at(Sq64(28)), Piece::Pawn);
    assert_eq!(bs.board.get_piece_at(Sq64(36)), Piece::Pawn);
    assert_eq!(bs.board.get_piece_at(Sq64(21)), Piece::Knight);
    // the line stops at the first word that names no legal move
    let bs = handle_position(&["startpos", "moves", "e2e5", "e2e4"]).unwrap();
    assert_eq!(bs, BoardState::start_pos());
    let words = ["fen", "4k3/8/8/8/8/8/4P3/4K3", "w", "-", "-", "0", "1", "moves", "e2e4", "e8d7"];
    let bs = handle_position(&words).unwrap();
    assert_eq!(bs.state_info.active_color, Color::White);
    assert_eq!(bs.board.get_piece_at(Sq64(51)), Piece::King);
    let words = ["fen", "rnbqkbnr/pppppppp/8/8/8/8/PPPPPPPP/RNBQKBNR", "w", "KQkq", "-", "0", "1"];
    assert_eq!(handle_position(&words).unwrap(), BoardState::from_fen(START).unwrap());
    assert!(handle_position(&["fen", "8/8/8", "w"]).is_none());
    assert!(handle_position(&["somewhere"]).is_none());
    assert!(handle_position(&[]).is_none());
    assert!(handle_position(&["fen", "8p/8/8/8/8/8/8/8", "w", "-", "-", "0", "1"]).is_none());
}

#[test]
fn environment_values() {
    let text = "# a comment\nLICHESS_TOKEN = first \nOTHER=1\n LICHESS_TOKEN =second\r\n";
    assert_eq!(get_lichess_token(text), Some(b"second".to_vec()));
    assert_eq!(get_lichess_token("#LICHESS_TOKEN=hidden\n"), None);
    assert_eq!(get_lichess_token("LICHESS_TOKEN\n"), None);
    assert_eq!(get_lichess_token("LICHESS_TOKEN=a=b"), Some(b"a=b".to_vec()));
    assert_eq!(get_lichess_token("LICHESS_TOKEN=\u{3000}tok\u{a0}"), Some(b"tok".to_vec()));
    assert_eq!(env_value(b"A=1\nB=2\nA=3", b"B"), Some(b"2".to_vec()));
    assert_eq!(env_value(b"", b"B"), None);
}

#[test]
fn packed_blocker_bits() {
    assert_eq!(pext_index(0b1011, 0b0110), 0b01);
    assert_eq!(pext_index(0b1111, 0b1010), 0b11);
    assert_eq!(pext_index(0, u64::MAX), 0);
    assert_eq!(pext_index(u64::MAX, u64::MAX), u64::MAX as u128);
    assert_eq!(pext_index(1 << 63, (1 << 63) | 1), 0b10);
}

#[test]
fn magic_tables_hold_the_slider_attacks() {
    for (offsets, size) in [(BISHOP_OFFSETS, 512usize), (ROOK_OFFSETS, 4096usize)] {
        let blockers = compute_blockers(offsets);
        let table = compute_magic(offsets, &blockers, size);
        assert_eq!(table.len(), 64);
        for sq in [0u8, 9, 27, 36, 63] {
            let mask = blockers[sq as usize];
            assert_eq!(table[sq as usize].len(), size);
            // every subset of the blockers, by the carry-rippler walk
            let mut subset = mask;
            loop {
                let idx = pext_index(subset, mask) as usize;
                assert_eq!(table[sq as usize][idx], compute_sliding_attacks(sq, subset, &offsets));
                if subset == 0 {
                    break;
                }
                subset = subset.wrapping_sub(1) & mask;
            }
        }
    }
}

#[test]
fn xorshift_numbers() {
    let mut rng = Xorshift64(0x1234_5678_9abc_def0);
    assert_eq!(rng.next_u64(), 0xfe80_0d65_69fa_1b4d);
    assert_eq!(rng.0, 0xfe80_0d65_69fa_1b4d);
    assert_eq!(rng.next_u64(), 0x0ce7_c497_a6b0_9c3b);
}

#[test]
fn found_magics_separate_different_attacks() {
    let blockers = compute_blockers(BISHOP_OFFSETS);
    let mut rng = Xorshift64(0x1234_5678_9abc_def0);
    for sq in [0u8, 27, 63] {
        let magic = find_magic(sq, &mut rng, &blockers, &BISHOP_OFFSETS, 9, 10_000_000).unwrap();
        let mask = blockers[sq as usize];
        let mut seen: Vec<Option<u64>> = vec![None; 512];
        let mut subset = mask;
        loop {
            let slot = (subset.wrapping_mul(magic) >> (64 - 9)) as usize;
            let attacks = compute_sliding_attacks(sq, subset, &BISHOP_OFFSETS);
            match seen[slot] {
                None => seen[slot] = Some(attacks),
                Some(a) => assert_eq!(a, attacks),
            }
            if subset == 0 {
                break;
            }
            subset = subset.wrapping_sub(1) & mask;
        }
    }
    // with no tries at all there is no magic
    let mut rng = Xorshift64(7);
    assert_eq!(find_magic(0, &mut rng, &blockers, &BISHOP_OFFSETS, 9, 0), None);
    assert_eq!(rng.0, 7);
}

#[test]
fn thousands_are_separated_by_dots() {
    assert_eq!(format_thousands(0), "0");
    assert_eq!(format_thousands(7), "7");
    assert_eq!(format_thousands(999), "999");
    assert_eq!(format_thousands(1000), "1.000");
    assert_eq!(format_thousands(1005), "1.005");
    assert_eq!(format_thousands(1234567), "1.234.567");
    assert_eq!(format_thousands(u64::MAX), "18.446.744.073.709.551.615");
}

#[test]
fn perft_divided_by_first_move() {
    let mut bs = BoardState::from_fen(START).unwrap();
    let (counts, total) = perft_devide(&mut bs, 2);
    assert_eq!(counts.len(), 20);
    assert!(counts.iter().all(|&(_, n)| n == 20));
    assert_eq!(total, 400);
    let (counts, total) = perft_devide(&mut bs, 1);
    assert_eq!(counts.len(), 20);
    assert!(counts.iter().all(|&(_, n)| n == 1));
    assert_eq!(total, 20);
    let (_, total) = perft_devide(&mut bs, 3);
    assert_eq!(total, number_of_moves(&mut bs, 3));
    assert_eq!(total, 8902);
}

#[test]
fn direct_moves_from_an_attack_table() {
    let knight = compute_attacks(&KNIGHT_OFFSETS);
    let bs = BoardState::from_fen("4k3/8/8/8/8/2p5/3P4/1N2K3 w - - 0 1").unwrap();
    let mut moves = Vec::new();
    generate_direct_moves(&bs.board, Sq64(1), knight, Color::White, &mut moves);
    assert_eq!(moves.len(), 2);
    assert!(moves.contains(&Move::new_flags(Sq64(1), Sq64(16), MoveFlag::Quiet)));
    assert!(moves.contains(&Move::new_flags(Sq64(1), Sq64(18), MoveFlag::Capture)));
}

fn capture_search(fen: &str, depth: u8, alpha: i32, beta: i32) -> Option<i32> {
    let stop = std::sync::atomic::AtomicBool::new(false);
    let tables = PieceSquareTables::flat();
    let mut ctx = SearchCtx {
        nodes: 0,
        stop_flag: &stop,
        start: std::time::Instant::now(),
        budget_ms: None,
        killers: vec![[None, None]; 256],
        tables: &tables,
    };
    let mut bs = BoardState::from_fen(fen).unwrap();
    quiescence_search(&mut bs, depth, alpha, beta, 1, &mut ctx)
}

fn static_eval(fen: &str) -> i32 {
    eval(&BoardState::from_fen(fen).unwrap(), &PieceSquareTables::flat())
}

#[test]
fn capture_search_takes_the_best_capture_or_stands_pat() {
    // Bare kings: the value is the evaluation, 0; a window above it gives alpha.
    assert_eq!(capture_search("4k3/8/8/8/8/8/8/4K3 w - - 0 1", 6, -100, 100), Some(0));
    assert_eq!(capture_search("4k3/8/8/8/8/8/8/4K3 w - - 0 1", 6, 10, 20), Some(10));
    // The rook on d2 can be taken by the queen or the king; Black then has no capture.
    let root = "4k3/8/8/8/8/8/3r4/3QK3 w - - 0 1";
    let by_queen = -static_eval("4k3/8/8/8/8/8/3Q4/4K3 b - - 0 1");
    let by_king = -static_eval("4k3/8/8/8/8/8/3K4/3Q4 b - - 0 1");
    let value = static_eval(root).max(by_queen).max(by_king);
    assert_eq!(capture_search(root, 6, -1_000_000, 1_000_000), Some(value));
    // Fail-hard: a window below the value gives beta, one above it gives alpha.
    assert_eq!(capture_search(root, 6, value - 200, value - 100), Some(value - 100));
    assert_eq!(capture_search(root, 6, value + 100, value + 200), Some(value + 100));
    // Depth 0 is the evaluation.
    assert_eq!(capture_search(root, 0, -1_000_000, 1_000_000), Some(static_eval(root)));
}

#[test]
fn ordering_swaps_the_table_move_and_keeps_ties_in_order() {
    let bs = BoardState::from_fen("4k3/8/8/3p4/4P3/8/8/4K3 w - - 0 1").unwrap();
    let a = Move::new(Sq64(4), Sq64(3));
    let b = Move::new(Sq64(4), Sq64(5));
    let c = Move::new(Sq64(4), Sq64(12));
    let take = Move::new_flags(Sq64(28), Sq64(35), MoveFlag::Capture);
    let mut moves = vec![a, b, c, take];
    order_moves(&bs, &mut moves, Some(c), [None, None]);
    assert_eq!(moves, vec![c, take, b, a]);
    let mut moves = vec![a, b, c, take];
    order_moves(&bs, &mut moves, None, [None, Some(c)]);
    assert_eq!(moves, vec![take, c, a, b]);
}

#[test]
fn double_check_leaves_only_king_moves() {
    // The knight on d3 and the rook on a1 both check; taking the knight with the
    // bishop does not answer the rook.
    let bs = BoardState::from_fen("4k3/8/8/8/8/3n4/8/r3KB2 w - - 0 1").unwrap();
    let moves = generate_moves(&bs, false);
    assert_eq!(moves.len(), 2);
    assert!(moves.contains(&Move::new(Sq64(4), Sq64(11))));
    assert!(moves.contains(&Move::new(Sq64(4), Sq64(12))));
}

#[test]
fn pinned_piece_keeps_to_its_line() {
    // The bishop on e2 is pinned by the rook on e8: it has no move.
    let bs = BoardState::from_fen("4r1k1/8/8/8/8/8/4B3/4K3 w - - 0 1").unwrap();
    let moves = generate_moves(&bs, false);
    assert!(moves.iter().all(|m| m.source() != Sq64(12)));
    assert_eq!(moves.len(), 4);
}

#[test]
fn square_names_read_back() {
    for i in 0..64u8 {
        let sq = Sq64(i);
        assert_eq!(Sq64::from_notation(sq.to_string().as_bytes()), Some(sq));
    }
    assert_eq!(Sq64(28).to_string(), "e4");
}

#[test]
fn capture_search_of_a_mated_side() {
    // White is mated: within a window the mate score comes back; a stand-pat above
    // beta returns beta first.
    let mated = "rnb1kbnr/pppp1ppp/8/4p3/6Pq/5P2/PPPPP2P/RNBQKBNR w KQkq - 1 3";
    assert_eq!(capture_search(mated, 1, -2_000_000_000, 2_000_000_000), Some(-1_000_001_000 + 1));
    assert_eq!(capture_search(mated, 1, -2_000_000, -1_000_000), Some(-1_000_000));
}

#[test]
fn depth_cap_keeps_counters_in_range() {
    let mut si = BoardState::from_fen("4k3/8/8/8/8/8/8/4K3 w - - 0 1").unwrap().state_info;
    si.half_move_clock = 240;
    assert_eq!(depth_cap(10, &si), 9);
    si.half_move_clock = 250;
    assert_eq!(depth_cap(10, &si), 0);
    let bs = BoardState::from_fen(START).unwrap();
    assert_eq!(depth_cap(255, &bs.state_info), 248);
}

#[test]
fn small_budgets_are_spent_at_once() {
    let start = std::time::Instant::now();
    assert!(budget_spent(&start, 0));
    assert!(budget_spent(&start, 20));
    assert!(!budget_spent(&start, 1_000_000));
}

#[test]
fn piece_characters() {
    let bs = BoardState::start_pos();
    assert_eq!(bs.board.get_piece_visual(0, 4), 'K');
    assert_eq!(bs.board.get_piece_visual(7, 3), 'q');
    assert_eq!(bs.board.get_piece_visual(3, 3), '.');
}

#[test]
fn undo_brings_back_the_en_passant_square() {
    let mut bs = BoardState::start_pos();
    bs.make_move(Move::new_flags(Sq64(12), Sq64(28), MoveFlag::DoublePawnPush));
    let before = bs.clone();
    let undo = bs.make_move(Move::new(Sq64(62), Sq64(45)));
    assert_eq!(bs.state_info.ep_square, None);
    bs.undo_move(&undo);
    assert_eq!(bs.state_info.ep_square, Some(Sq64(20)));
    assert_eq!(bs, before);
}

#[test]
fn pawn_moves_come_in_generation_order() {
    let b = Board::from_fen_part("4k3/8/8/8/p7/8/P6P/4K3").unwrap();
    let si = StateInfo::from_fen(&["w", "-", "-", "0", "1"]).unwrap();
    let mut moves = Vec::new();
    batch_generate_pawn_moves(&b, 0x8100, Color::White, &mut moves, &si, !0u64);
    assert_eq!(
        moves,
        vec![
            Move::new(Sq64(8), Sq64(16)),
            Move::new(Sq64(15), Sq64(23)),
            Move::new_flags(Sq64(15), Sq64(31), MoveFlag::DoublePawnPush),
        ]
    );
}

#[test]
fn castles_kingside_first() {
    let b = Board::from_fen_part("r3k2r/8/8/8/8/8/8/R3K2R").unwrap();
    let all = StateInfo::from_fen(&["w", "KQkq", "-", "0", "1"]).unwrap();
    let mut moves = Vec::new();
    generate_castles(&b, Sq64(4), Color::White, &mut moves, &all);
    assert_eq!(
        moves,
        vec![
            Move::new_flags(Sq64(4), Sq64(6), MoveFlag::CastleKingside),
            Move::new_flags(Sq64(4), Sq64(2), MoveFlag::CastleQueenside),
        ]
    );
    let none = StateInfo::from_fen(&["w", "-", "-", "0", "1"]).unwrap();
    let mut moves = Vec::new();
    generate_castles(&b, Sq64(4), Color::White, &mut moves, &none);
    assert!(moves.is_empty());
}

fn new_ctx<'a>(stop: &'a std::sync::atomic::AtomicBool, tables: &'a PieceSquareTables) -> SearchCtx<'a> {
    SearchCtx {
        nodes: 0,
        stop_flag: stop,
        start: std::time::Instant::now(),
        budget_ms: None,
        killers: vec![[None, None]; 256],
        tables,
    }
}

#[test]
fn en_passant_square_fits_unless_the_pawn_shields_the_king() {
    // The rook on c6 already checks; taking en passant on e6 blocks it.
    let block = BoardState::from_fen("7k/8/2r3K1/3Pp3/8/8/8/8 w - e6 0 1").unwrap();
    assert!(is_legal_position(&block));
    // The pawn on d5 alone keeps the bishop on b7 off the king on f3.
    let shield = BoardState::from_fen("7k/1b6/8/3pP3/8/5K2/8/8 w - d6 0 1").unwrap();
    assert!(!is_legal_position(&shield));
    let plain = BoardState::from_fen("7k/1b6/8/3pP3/8/5K2/8/8 w - - 0 1").unwrap();
    assert!(is_legal_position(&plain));
}

#[test]
fn one_move_search_takes_the_best_child_score() {
    let stop = std::sync::atomic::AtomicBool::new(false);
    let tables = PieceSquareTables::flat();
    let fen = "4k3/8/8/8/8/8/3r4/3QK3 w - - 0 1";
    let mut bs = BoardState::from_fen(fen).unwrap();
    let mut best = i32::MIN;
    let mut best_moves = Vec::new();
    for m in generate_moves(&bs, false) {
        let undo = bs.make_move(m);
        let mut ctx = new_ctx(&stop, &tables);
        let v = -quiescence_search(&mut bs, 6, -2_000_000_000, 2_000_000_000, 1, &mut ctx).unwrap();
        bs.undo_move(&undo);
        if v > best {
            best = v;
            best_moves.clear();
        }
        if v == best {
            best_moves.push(m);
        }
    }
    let mut ctx = new_ctx(&stop, &tables);
    let mut tt = TranspositionTable::default();
    let (m, score) = search_root(&mut bs, 1, &mut ctx, &mut tt).unwrap();
    assert_eq!(score, best);
    assert!(best_moves.contains(&m));
    // The rook is taken.
    assert_eq!(m.target(), Sq64(11));
    // A search one move deep is fail-hard around that best score.
    let mut ctx = new_ctx(&stop, &tables);
    let mut tt = TranspositionTable::default();
    assert_eq!(search(&mut bs, 1, best - 10, best + 10, 1, &mut ctx, &mut tt), Some((best, Bound::Exact)));
    let mut ctx = new_ctx(&stop, &tables);
    let mut tt = TranspositionTable::default();
    assert_eq!(search(&mut bs, 1, best + 10, best + 20, 1, &mut ctx, &mut tt), Some((best + 10, Bound::Upper)));
    let mut ctx = new_ctx(&stop, &tables);
    let mut tt = TranspositionTable::default();
    assert_eq!(search(&mut bs, 1, best - 20, best - 10, 1, &mut ctx, &mut tt), Some((best - 10, Bound::Lower)));
}

#[test]
fn mate_and_stalemate_scores_come_back() {
    let stop = std::sync::atomic::AtomicBool::new(false);
    let tables = PieceSquareTables::flat();
    let mated = "rnb1kbnr/pppp1ppp/8/4p3/6Pq/5P2/PPPPP2P/RNBQKBNR w KQkq - 1 3";
    let mut bs = BoardState::from_fen(mated).unwrap();
    let mut ctx = new_ctx(&stop, &tables);
    let mut tt = TranspositionTable::default();
    assert_eq!(search(&mut bs, 2, -100, 100, 3, &mut ctx, &mut tt), Some((-MATE_SCORE + 3, Bound::Exact)));
    let stalemate = "7k/5Q2/6K1/8/8/8/8/8 b - - 0 1";
    let mut bs = BoardState::from_fen(stalemate).unwrap();
    let mut ctx = new_ctx(&stop, &tables);
    let mut tt = TranspositionTable::default();
    assert_eq!(search(&mut bs, 3, -100, 100, 1, &mut ctx, &mut tt), Some((0, Bound::Exact)));
}

#[test]
fn a_small_budget_stops_at_the_node_check() {
    let stop = std::sync::atomic::AtomicBool::new(false);
    let tables = PieceSquareTables::flat();
    let mut ctx = new_ctx(&stop, &tables);
    ctx.budget_ms = Some(20);
    ctx.nodes = 2046;
    assert!(!ctx.should_stop());
    assert!(ctx.should_stop());
    assert!(stop.load(std::sync::atomic::Ordering::Relaxed));
}

#[test]
fn between_table_is_symmetric() {
    let t = compute_between();
    assert_eq!(t[0][63], 0x0040_2010_0804_0200);
    assert_eq!(t[0][7], 0x7E);
    assert_eq!(t[0][9], 0);
    assert_eq!(t[0][17], 0);
    for a in 0..64 {
        for b in 0..64 {
            assert_eq!(t[a][b], t[b][a]);
        }
    }
}

#[test]
fn evaluation_changes_sign_with_the_side_to_move() {
    let tables = PieceSquareTables::flat();
    let white = BoardState::from_fen("4k3/pp6/8/8/8/8/3Q4/4K3 w - - 0 1").unwrap();
    let black = BoardState::from_fen("4k3/pp6/8/8/8/8/3Q4/4K3 b - - 0 1").unwrap();
    assert_eq!(eval(&black, &tables), -eval(&white, &tables));
    assert_eq!(eval(&BoardState::start_pos(), &tables), 0);
}

fn brute_negamax(bs: &mut BoardState, depth: u8, ply: u8, stop: &std::sync::atomic::AtomicBool, tables: &PieceSquareTables) -> i32 {
    if depth == 0 {
        let mut ctx = new_ctx(stop, tables);
        return quiescence_search(bs, 6, -2_000_000_000, 2_000_000_000, ply, &mut ctx).unwrap();
    }
    let moves = generate_moves(bs, false);
    if moves.is_empty() {
        return if is_check(bs) { -MATE_SCORE + ply as i32 } else { 0 };
    }
    let mut best = i32::MIN;
    for m in moves {
        let undo = bs.make_move(m);
        let v = -brute_negamax(bs, depth - 1, ply + 1, stop, tables);
        bs.undo_move(&undo);
        best = best.max(v);
    }
    best
}

#[test]
fn two_move_search_gives_the_negamax_value() {
    let stop = std::sync::atomic::AtomicBool::new(false);
    let tables = PieceSquareTables::flat();
    for fen in ["4k3/8/8/8/8/8/3r4/3QK3 w - - 0 1", "4k3/3p4/8/1n6/8/2N5/8/4K3 b - - 0 1"] {
        let mut bs = BoardState::from_fen(fen).unwrap();
        let value = brute_negamax(&mut bs, 2, 1, &stop, &tables);
        let mut ctx = new_ctx(&stop, &tables);
        let mut tt = TranspositionTable::default();
        assert_eq!(search(&mut bs, 2, -2_000_000_000, 2_000_000_000, 1, &mut ctx, &mut tt), Some((value, Bound::Exact)));
        let mut ctx = new_ctx(&stop, &tables);
        let mut tt = TranspositionTable::default();
        assert_eq!(search(&mut bs, 2, value + 5, value + 50, 1, &mut ctx, &mut tt), Some((value + 5, Bound::Upper)));
        let mut ctx = new_ctx(&stop, &tables);
        let mut tt = TranspositionTable::default();
        let (m, score) = search_root(&mut bs, 2, &mut ctx, &mut tt).unwrap();
        let root_value = brute_negamax(&mut bs, 2, 0, &stop, &tables);
        assert_eq!(score, root_value);
        let undo = bs.make_move(m);
        assert_eq!(-brute_negamax(&mut bs, 1, 1, &stop, &tables), root_value);
        bs.undo_move(&undo);
    }
}

#[test]
fn uci_commands_by_their_first_word() {
    assert_eq!(uci_command(&["uci"]), UciCommand::Uci);
    assert_eq!(uci_command(&["isready"]), UciCommand::IsReady);
    assert_eq!(uci_command(&["ucinewgame"]), UciCommand::NewGame);
    assert_eq!(uci_command(&["position", "startpos"]), UciCommand::Position);
    assert_eq!(uci_command(&["go", "depth", "3"]), UciCommand::Go);
    assert_eq!(uci_command(&["d"]), UciCommand::Display);
    assert_eq!(uci_command(&["stop"]), UciCommand::Stop);
    assert_eq!(uci_command(&["quit"]), UciCommand::Quit);
    assert_eq!(uci_command(&["bench"]), UciCommand::Bench(6));
    assert_eq!(uci_command(&["bench", "4"]), UciCommand::Bench(4));
    assert_eq!(uci_command(&["bench", "x"]), UciCommand::Bench(6));
    assert_eq!(uci_command(&["perft", "3"]), UciCommand::Perft(Some(3)));
    assert_eq!(uci_command(&["perft"]), UciCommand::Perft(None));
    assert_eq!(uci_command(&["perftd", "2"]), UciCommand::PerftDivide(Some(2)));
    assert_eq!(uci_command(&["perft", "300"]), UciCommand::Perft(None));
    assert_eq!(uci_command(&["hello"]), UciCommand::Unknown);
    let empty: [&str; 0] = [];
    assert_eq!(uci_command(&empty), UciCommand::Unknown);
    assert_eq!(go_depth(&parse_go(&["depth", "7"]).unwrap()), 7);
    assert_eq!(go_depth(&parse_go(&["infinite"]).unwrap()), 255);
}

#[test]
fn shallow_counts_need_no_legal_position() {
    // Black is in check with White to move: not a legal position, yet counted at
    // depths 0 and 1.
    let mut bs = BoardState::from_fen("4k3/8/8/8/8/8/8/4R1K1 w - - 0 1").unwrap();
    assert!(!is_legal_position(&bs));
    assert_eq!(number_of_moves(&mut bs, 0), 1);
    assert_eq!(number_of_moves(&mut bs, 1) as usize, generate_moves(&bs, false).len());
}
