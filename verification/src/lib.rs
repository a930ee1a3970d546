pub mod bits;
pub mod board;
pub mod board_state;
pub mod fen;
pub mod moves;
pub mod piece;
pub mod square;
pub mod state_info;
pub mod text;
pub mod zobrist;
pub mod attacks;
pub mod geometry;
pub mod position;
pub mod movegen;
pub mod pawn_batch;
pub mod generate;
pub mod legality;
pub mod perft;
pub mod eval;
pub mod transposition;
pub mod order;
pub mod search;
pub mod legal_check;
pub mod uci;
pub mod env;
pub mod board_text;
pub mod magic;
pub mod find_magic;
pub mod bench;
pub mod quiescence;
pub mod negamax;
pub mod completeness;
