//! A small line-oriented substring search library.
//!
//! Given a query and a body of text, the library splits the text into lines
//! and returns, in original order, the lines that contain the query, either
//! with exact case or case-insensitively. A `Config` gathers the query, the
//! file name and the case toggle from plain values handed in by the caller;
//! reading the process arguments, the environment and the file itself is left
//! to the surrounding program.

pub mod config;
pub mod search;
pub mod text;

pub use config::run;
pub use config::Config;
pub use search::search;
pub use search::search_case_insensitive;
