//! Legal chess move generation over bitboards, with magic-indexed slider attacks.

pub mod square;
pub mod bitboard;
pub mod attacks;
pub mod magic;
pub mod tables;
pub mod chessmove;
pub mod board;
pub mod movegen;

pub use square::{Square, is_same_diag, is_same_adiag, is_same_ddiag, is_same_col, is_same_row};
pub use bitboard::{BitBoard, Side, PieceType, ChessPiece, cp_index, sym_index};
pub use tables::{
    AttackTables, get_pawn_attack, get_w_pawn_attack, get_b_pawn_attack, get_knight_attack,
    get_king_attack, get_bishop_attack, get_rook_attack, get_queen_attack,
};
pub use chessmove::{ChessMove, MoveType};
pub use board::{ChessBoard, PositionError};
pub use movegen::generate_moves;
pub mod laws;
pub mod pins;
