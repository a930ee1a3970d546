use chessr::board_state::BoardState;

#[test]
fn test_start_pos() {
    assert_eq!(
        BoardState::start_pos(),
        BoardState::from_fen("rnbqkbnr/pppppppp/8/8/8/8/PPPPPPPP/RNBQKBNR w KQkq - 0 1").unwrap()
    );
}
