//! Counting the occurrences of substrings in a fixed text.
//!
//! A [`File`] owns a text. Each call of [`File::parse_and_count`] counts the
//! occurrences of one substring in it and adds them to what was counted for
//! that substring before; [`File::order_content_alphabetically`] lists the
//! substrings counted so far in lexicographic order.

pub mod file;
pub mod model;
pub mod occurrences;
pub mod order;
mod tally;

pub use file::File;
pub use model::CountedText;
