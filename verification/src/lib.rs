//! Binary search for records in files sorted on a key column: the lines of
//! a file are records whose fields a delimiter separates, and the search
//! finds the lines whose key equals a target.
pub mod args;
pub mod error;
pub mod file;
pub mod laws;
pub mod model;
pub mod number;
pub mod search;
pub mod searcher;
pub mod text;
pub mod value;

pub use args::parse_delimiter;
pub use error::Error;
pub use file::read_line;
pub use number::NumberError;
pub use search::{binary_search_in_file, get_column, judge_line, print_all_occurrences, LineVerdict};
pub use searcher::{Searcher, Step};
pub use value::Value;
