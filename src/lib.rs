//! Turns the literal two-character sequence backslash-`n` in each line of a
//! text into a real line break, and names the file the result is written to.
pub mod error;
pub mod paths;
pub mod text;
