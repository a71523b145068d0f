//! A minimal line-oriented text search library.
//!
//! Given a query string and the contents of a text file, the library selects
//! the lines that contain the query as a literal substring, either
//! case-sensitively or case-insensitively, and prepares each matched line for
//! display by marking the words that contain the query.  Reading the file and
//! printing the marked words are left to the caller.

pub mod config;
pub mod render;
pub mod search;
pub mod text;

pub use crate::config::Config;
pub use crate::render::RenderedWord;
pub use crate::render::render_line;
pub use crate::render::render_matches;
pub use crate::search::search;
pub use crate::search::search_case_insensitive;
pub use crate::text::str_contains;
pub use crate::text::str_eq;
