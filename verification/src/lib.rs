//! A small line filter: splits a text into lines and keeps those that hold a
//! query string, with or without regard to letter case.
pub mod args;
pub mod encoding;
pub mod error;
pub mod folding;
pub mod input;
pub mod laws;
pub mod lines;
pub mod scan;
pub mod search;
pub mod text;

pub use crate::args::BigGrepArgs;
pub use crate::error::GrepError;
pub use crate::input::InputSource;
pub use crate::lines::lines;
pub use crate::search::{run, search, search_case_insensitive};
