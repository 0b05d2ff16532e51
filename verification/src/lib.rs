//! A small line-oriented text search: given a query and a body of text, find
//! the lines of the text that contain the query, with or without regard to
//! letter case.
//!
//! Every function is specified over sequences of characters and proved
//! against that specification, although the executable code works on the
//! UTF-8 bytes of its arguments.

pub mod config;
pub mod encoding;
pub mod lines;
pub mod lowercase;
pub mod runner;
pub mod search;
pub mod substring;

pub use config::{Config, MissingArgument};
pub use lines::split_first_line;
pub use runner::run;
pub use search::{search, search_case_insensitive};
pub use substring::contains;
