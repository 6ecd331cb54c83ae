//! Recovery of structured track metadata (index, title, artist, duration,
//! label code) from loosely structured filenames and companion text listings.
//!
//! The library is pure: reading files, the user interface and the CSV sink
//! live outside it.  It receives file names, file lines and the label table
//! as plain values and hands back track records and diagnostics.

pub mod chars;
pub mod direct;
pub mod duration;
pub mod labels;
pub mod listing;
pub mod paths;
pub mod records;
pub mod session;
pub mod text;
pub mod tokenizer;
