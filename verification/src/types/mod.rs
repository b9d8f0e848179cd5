pub mod bitboard;
pub mod side;
pub mod piece;
pub mod square;

pub use bitboard::Bitboard;
pub use piece::Piece;
pub use side::Side;
pub use square::Square;
pub mod moves;
pub use moves::{Move, Promotion};
