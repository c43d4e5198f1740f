//! A static full-text index over one long sequence of symbols: a suffix array,
//! optionally narrowed by a table of fixed-length prefixes, with a binary image
//! and exact-match range queries.

pub mod batch;
pub mod codec;
pub mod error;
pub mod index;
pub mod lex;
pub mod ordering;
pub mod prefix_table;
pub mod records;
pub mod search;
pub mod successor;
pub mod suffix_array;
pub mod theory;
