//! The tree that a `TreeTokenWriter` builds. Nodes live in an arena and are
//! named by their index; a node's children always have smaller indices, so the
//! nodes form a directed acyclic graph in which a subtree may be shared.

use vstd::prelude::*;
use crate::label::{Label, LabelView};

verus! {

/// A handle on a node of a writer's tree: its index in the arena.
pub type SharedTree = usize;

/// A node to add to the tree: its label and the handles of its children.
#[derive(Clone, Debug)]
pub struct SubTree {
    pub label: Label,
    pub children: Vec<SharedTree>,
}

/// The labels of an arena, by their views.
pub open spec fn label_views(labels: Seq<Label>) -> Seq<LabelView> {
    labels.map_values(|l: Label| l@)
}

/// The children of each node of an arena.
pub open spec fn kid_views(children: Seq<Vec<SharedTree>>) -> Seq<Seq<SharedTree>> {
    children.map_values(|c: Vec<SharedTree>| c@)
}

/// Every child of a node has a smaller index than the node.
pub open spec fn children_precede(kids: Seq<Seq<SharedTree>>) -> bool {
    forall|i: int, k: int|
        0 <= i < kids.len() && 0 <= k < kids[i].len() ==> #[trigger] kids[i][k] < i
}

/// Every handle in `handles` names a node of an arena of `len` nodes.
pub open spec fn handles_below(handles: Seq<SharedTree>, len: nat) -> bool {
    forall|k: int| 0 <= k < handles.len() ==> #[trigger] handles[k] < len
}

} // verus!
