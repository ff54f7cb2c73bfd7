//! Piece-table text editing buffers with two interchangeable backends.
//!
//! # Examples
//!
//! ```
//! use pbtree::PieceTable;
//!
//! let mut table = PieceTable::new("hello".chars().collect());
//! table.insert(5, &[' ', 'w', 'o', 'r', 'l', 'd']);
//! table.delete(0, 1);
//! let text: String = table.iter().copied().collect();
//! assert_eq!(text, "ello world");
//! ```
//!
//! ```
//! use pbtree::{CompactPieceTable, TextBuffer};
//!
//! let mut table = CompactPieceTable::new(Vec::<char>::new());
//! table.insert(0, &['a', 'b', 'c']);
//! assert_eq!(table.get(1), Some(&'b'));
//! assert!(table.validate().is_ok());
//! ```
mod balance;
mod buffer;
mod bytes;
mod compact;
mod compact_iter;
mod content;
mod defect;
mod document;
mod edit;
mod graphemes;
mod index;
mod iter;
pub mod laws;
mod list;
mod piece;
mod regexes;
mod search;
mod stats;
mod table;
mod tree;
mod walk;

pub use buffer::TextBuffer;
pub use bytes::SearchAlgorithm;
pub use compact::CompactPieceTable;
pub use compact_iter::{CompactIter, CompactRangeIter};
pub use defect::Defect;
pub use graphemes::{concat_range, find_run};
pub use iter::{Cursor, Iter, RangeIter};
pub use piece::{BufferKind, Piece};
pub use regexes::{grapheme_spans, regex_grapheme_result, regex_result, RegexError};
pub use stats::Stats;
pub use table::PieceTable;
pub use tree::{
    BNode, INTERNAL_MAX_CHILDREN, INTERNAL_MIN_CHILDREN, LEAF_MAX_PIECES, LEAF_MIN_PIECES,
};
