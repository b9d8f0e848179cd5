pub mod zobrist;
pub mod table_score;
pub mod transpositions;

pub use zobrist::Zobrist;
pub use table_score::TableScore;
pub use transpositions::Transpositions;
