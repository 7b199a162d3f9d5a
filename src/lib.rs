//! An interpreter for ordered string-rewriting rules (`pattern=replacement`),
//! applied to a working string until none of them matches.

pub mod config;
pub mod program;
pub mod rules;
pub mod text;

pub use config::Config;
pub use program::Program;
pub use rules::{ParseError, Rule};
