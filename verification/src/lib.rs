//! Word-frequency statistics for text documents: tokenizing, noise-word
//! filtering, synonym collapsing, and a ranked count of the remaining terms.
//!
//! A document is a sequence of lines. Each line is split at the separator
//! characters; each token is stripped, dropped where it is short, a number
//! or a noise word, lower-cased, and counted under its canonical word. The
//! lines may be dealt out to any number of accumulators: the merged counts
//! are the counts of the whole document.

pub mod collapser;
pub mod dispatcher;
pub mod errors;
pub mod model;
pub mod ranking;
pub mod records;
pub mod report;
pub mod rules;
pub mod table;
pub mod text;
pub mod word_counter;
