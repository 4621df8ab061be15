//! Nearest-word search by edit distance over a bounded-word dictionary.
//!
//! Each query word is compared with every dictionary word by the Wagner-Fischer
//! recurrence, on one reusable grid whose columns are kept between dictionary
//! words that share a prefix; words whose length alone rules them out are
//! skipped. The outcome for a query is the smallest distance and the
//! dictionary words that reach it, in dictionary order.

pub mod batch;
pub mod decode;
pub mod edit;
pub mod input;
pub mod matrix;
pub mod output;
pub mod search;
pub mod word;
