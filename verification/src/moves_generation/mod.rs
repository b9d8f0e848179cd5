pub mod attacks;
pub mod generation;
pub mod moves_list;
pub mod ordering;
pub mod perft;

pub use generation::{Moves, generate_all, generate_captures, attack_mask, real_attack_mask};
pub use moves_list::{MoveList, MoveListIterator};
pub use ordering::{Weights, order};
pub use perft::perft;
