pub mod masks;
pub mod magics;
pub mod board;
pub mod make;
pub mod fen;

pub use board::Board;
pub use fen::{FenConsumer, FenProducer};
