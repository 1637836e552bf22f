//! How the writer lays out its output.

use vstd::prelude::*;

verus! {

/// Where the dictionaries of tags and strings are written.
#[derive(Clone, Copy, Debug, PartialEq, Eq, Structural)]
pub enum DictionaryPlacement {
    /// Every tag and string is defined once, in a header before the contents.
    Header,
    /// Strings are written where they occur, each terminated by a zero byte.
    Inline,
}

/// The options of a `TreeTokenWriter`.
#[derive(Clone, Copy, Debug, PartialEq, Eq, Structural)]
pub struct Options {
    /// When set, the labels of all the children of a node are written before
    /// any of their own children; otherwise each child is written in full
    /// before the next.
    pub sibling_labels_together: bool,
    pub dictionary_placement: DictionaryPlacement,
}

} // verus!
