//! A tree token writer that splits a serialized abstract syntax tree into one
//! byte stream per kind of content (declarations, references, tags, strings,
//! numbers, booleans, list lengths), so that each stream can be compressed on
//! its own.

pub mod category;
pub mod encoding;
pub mod header;
pub mod label;
pub mod numbering;
pub mod options;
pub mod ranking;
pub mod serialize;
pub mod statistics;
pub mod tally;
pub mod target;
pub mod text;
pub mod tree;
pub mod writer;
