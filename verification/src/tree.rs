//! An append-only table of labelled nodes, each with an ordered list of
//! children that were added before it.

use crate::nameck::Atom;
use vstd::prelude::*;

verus! {

/// The position of a node in its table.
pub type NodeId = usize;

struct TreeNode {
    label: Atom,
    children: Vec<NodeId>,
}

/// A table of nodes. A node's children always have smaller ids than the node,
/// so every node is the root of a finite tree.
pub struct Tree {
    nodes: Vec<TreeNode>,
}

impl Tree {
    /// The number of nodes.
    pub closed spec fn len(&self) -> nat {
        self.nodes@.len()
    }

    /// The label of node `id`.
    pub closed spec fn label_of(&self, id: int) -> Atom {
        self.nodes@[id].label
    }

    /// The children of node `id`, in order.
    pub closed spec fn children_of(&self, id: int) -> Seq<NodeId> {
        self.nodes@[id].children@
    }

    /// Every child was added before its parent.
    pub open spec fn wf(&self) -> bool {
        forall|id: int, k: int|
            0 <= id < self.len() && 0 <= k < self.children_of(id).len() ==> (
            #[trigger] self.children_of(id)[k]) < id
    }

    /// `other` holds the nodes of `self`, unchanged, and possibly more.
    pub open spec fn extends(&self, other: &Tree) -> bool {
        &&& other.len() <= self.len()
        &&& forall|id: int|
            0 <= id < other.len() ==> self.label_of(id) == other.label_of(id)
                && self.children_of(id) == other.children_of(id)
    }

    /// The empty table.
    pub fn new() -> (t: Tree)
        ensures
            t.len() == 0,
            t.wf(),
    {
        Tree { nodes: Vec::new() }
    }

    /// The number of nodes.
    pub fn node_count(&self) -> (n: usize)
        ensures
            n == self.len(),
    {
        self.nodes.len()
    }

    /// Appends a node with the given label and children and returns its id.
    pub fn add_node(&mut self, label: Atom, children: Vec<NodeId>) -> (id: NodeId)
        requires
            old(self).wf(),
            forall|k: int| 0 <= k < children@.len() ==> children@[k] < old(self).len(),
        ensures
            final(self).wf(),
            id == old(self).len(),
            final(self).len() == old(self).len() + 1,
            final(self).label_of(id as int) == label,
            final(self).children_of(id as int) == children@,
            final(self).extends(old(self)),
    {
        let id = self.nodes.len();
        self.nodes.push(TreeNode { label, children });
        assert forall|n: int, k: int|
            0 <= n < self.len() && 0 <= k < self.children_of(n).len() implies (
        #[trigger] self.children_of(n)[k]) < n by {
            if n < id {
                assert(self.children_of(n) == old(self).children_of(n));
            }
        }
        id
    }

    /// The label of node `id`.
    pub fn label(&self, id: NodeId) -> (l: Atom)
        requires
            id < self.len(),
        ensures
            l == self.label_of(id as int),
    {
        self.nodes[id].label
    }

    /// Whether node `id` has any child.
    pub fn has_children(&self, id: NodeId) -> (r: bool)
        requires
            id < self.len(),
        ensures
            r == (self.children_of(id as int).len() > 0),
    {
        self.nodes[id].children.len() > 0
    }

    /// The number of children of node `id`.
    pub fn child_count(&self, id: NodeId) -> (n: usize)
        requires
            id < self.len(),
        ensures
            n == self.children_of(id as int).len(),
    {
        self.nodes[id].children.len()
    }

    /// The child of node `id` at position `k`, counting from zero.
    pub fn child(&self, id: NodeId, k: usize) -> (c: NodeId)
        requires
            id < self.len(),
            k < self.children_of(id as int).len(),
        ensures
            c == self.children_of(id as int)[k as int],
    {
        self.nodes[id].children[k]
    }

    /// The `index`-th child of node `id`, counting from one; `None` when
    /// `index` is zero or exceeds the number of children.
    pub fn nth_child(&self, id: NodeId, index: usize) -> (r: Option<NodeId>)
        requires
            id < self.len(),
        ensures
            r == if 1 <= index <= self.children_of(id as int).len() {
                Some(self.children_of(id as int)[index - 1])
            } else {
                None
            },
    {
        if 1 <= index && index <= self.nodes[id].children.len() {
            Some(self.nodes[id].children[index - 1])
        } else {
            None
        }
    }
}

} // verus!
