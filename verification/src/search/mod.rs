pub mod book;
pub mod checks;
pub mod eval;
pub mod options;
pub mod search;
pub mod weights;

pub use checks::Checks;
pub use eval::{Score, Verbosity, evaluate};
pub use options::Options;
pub use search::KILLER_MOVES_STORED;
