//! A line-oriented stream editor: scripts of addresses and commands are
//! compiled into a flat instruction stream and run over input lines.
pub mod address;
pub mod command;
pub mod compile;
pub mod error;
pub mod escape;
pub mod lexer;
pub mod line;
pub mod parse_address;
pub mod pattern;
pub mod program;
pub mod reader;
pub mod scan;
pub mod text;

pub use command::Status;
pub use error::Error;
pub use line::Line;
pub use program::Program;
