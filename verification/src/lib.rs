//! A minimal line-oriented substring search library: given a target
//! string and a block of text, report the lines that contain the target,
//! optionally case-insensitively, together with their 1-based line
//! numbers.

pub mod config;
pub mod render;
pub mod search;
pub mod text;

pub use config::Config;
pub use render::render_match;
pub use search::search;
pub use text::line_contains;
pub use text::split_lines;
