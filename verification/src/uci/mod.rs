pub mod command;
pub mod report;
pub mod requests;
pub mod scanner;
pub mod text;
pub mod uci;

pub use command::{Command, read_command};
pub use requests::{GoOutcome, OptionSet, RequestError};
pub use uci::{PositionError, UCI};
