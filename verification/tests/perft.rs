use chessr::board_state::BoardState;
use chessr::perft::number_of_moves;

fn check(fen: &str, depth: u8, actual_moves: u32, explanation: &str) {
    let mut board = BoardState::from_fen(fen).unwrap();
    assert_eq!(number_of_moves(&mut board, depth), actual_moves, "{}", explanation);
}

#[test]
fn perft_start_pos() {
    check("rnbqkbnr/pppppppp/8/8/8/8/PPPPPPPP/RNBQKBNR w KQkq - 0 1", 4, 197_281, "Starting Position");
}

#[test]
fn perft_pos_wiki() {
    check("r3k2r/p1ppqpb1/bn2pnp1/3PN3/1p2P3/2N2Q1p/PPPBBPPP/R3K2R w KQkq - 0 0", 3, 97_862, "Pos 2");
    check("8/2p5/3p4/KP5r/1R3p1k/8/4P1P1/8 w - - 0 1", 4, 43_238, "Pos 3");
    check("r3k2r/Pppp1ppp/1b3nbN/nP6/BBP1P3/q4N2/Pp1P2PP/R2Q1RK1 w kq - 0 1", 3, 9_467, "Pos 4");
    check("rnbq1k1r/pp1Pbppp/2p5/8/2B5/8/PPP1NnPP/RNBQK2R w KQ - 1 8", 3, 62_379, "Pos 5");
    check(
        "r4rk1/1pp1qppp/p1np1n2/2b1p1B1/2B1P1b1/P1NP1N2/1PP1QPPP/R4RK1 w - - 0 10",
        3,
        89_890,
        "Pos 6",
    );
}

#[test]
fn en_passant_test() {
    check("4k3/1ppp4/8/2P2PPp/p1p2Pp1/8/1PPP4/4K3 b - f3 0 1", 4, 28_127, "General EP position");
    check("7k/8/8/K1pP3r/8/8/8/8 w - c6 0 1", 5, 44_848, "EP with double pin");
    check("7k/8/8/3Pp3/5K2/8/8/8 w - e6 0 1", 1, 9, "EP to take checker");
    check("7k/8/2r3K1/3Pp3/8/8/8/8 w - e6 0 1", 1, 7, "EP to block check");
}

#[test]
fn complicated_positions() {
    check(
        "r3k2r/1bp2pP1/5n2/1P1Q4/1pPq4/5N2/1B1P2p1/R3K2R b KQkq c3 0 1",
        3,
        113_742,
        "Complicated Midgame",
    );
    check("k7/4r3/1b5q/2Q1Pp2/5R2/1rR1KP1q/3RBN2/2q1q1b1 w - - 0 1", 4, 360_098, "Pin Position");
    check("1nnn1b2/2k3rR/2q1rB2/8/4R2Q/8/4N1K1/8 w - - 0 1", 4, 690_360, "Check Position");
}

#[test]
fn castle_tests() {
    check("r3k2r/8/8/8/8/8/8/R3K2R w KQkq - 0 1", 2, 568, "Can Castle");
    check("r3k2r/8/8/8/8/8/8/R3K2R w - - 0 1", 2, 482, "Cannot Castle without rights");
    check("r3k2r/8/8/4q1Q1/8/8/8/R3K2R w KQkq - 0 1", 2, 218, "Cannot castle from check");
    check("r3k2r/6p1/5Q2/8/8/3q4/2P5/R3K2R w KQkq - 0 1", 2, 1_660, "Cannot castle trough check");
    check("r3k2r/8/8/2q3Q1/8/8/8/R3K2R w KQkq - 0 1", 2, 1_588, "Cannot castle into check");
    check(
        "r3k2r/8/1q6/R6r/8/8/7Q/R3K2R w KQkq - 0 1",
        2,
        1_899,
        "Can castle if rook or b-file is attacked",
    );
    check("rN2k1br/8/8/8/8/8/8/R1N1Kb1R b KQkq - 0 1", 2, 832, "Cant castle through pieces");
    check("r7/8/2b3b1/6B1/8/8/1k6/R3K2R w KQ - 0 1", 4, 940_814, "Weird Castle Position");
}
