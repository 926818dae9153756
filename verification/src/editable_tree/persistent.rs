//! A node store that keeps every root the tree has had.

use vstd::prelude::*;

verus! {

/// A reference to a node of a [`Persistent`] store.
#[derive(Copy, Clone, PartialEq, Eq, Hash, Debug, Structural)]
pub struct Ref(usize);

impl Ref {
    /// The reference to the node at position `val`.
    pub fn new(val: usize) -> (r: Ref)
        ensures
            r.as_usize_spec() == val,
    {
        Ref(val)
    }

    /// The position of the referenced node.
    pub closed spec fn as_usize_spec(self) -> usize {
        self.0
    }

    /// The position of the referenced node.
    pub fn as_usize(self) -> (u: usize)
        ensures
            u == self.as_usize_spec(),
    {
        self.0
    }
}

/// A store of nodes that never forgets a node, with the history of the tree's roots.
pub struct Persistent<Node> {
    nodes: Vec<Node>,
    roots: Vec<Ref>,
}

impl<Node> Persistent<Node> {
    /// The nodes of the store.
    pub closed spec fn spec_nodes(&self) -> Seq<Node> {
        self.nodes@
    }

    /// The roots of the tree, oldest first.
    pub closed spec fn spec_roots(&self) -> Seq<Ref> {
        self.roots@
    }

    /// A store holding only the given node, as the only root.
    pub fn with_root(node: Node) -> (p: Self)
        ensures
            p.spec_nodes() == seq![node],
            p.spec_roots().len() == 1 && p.spec_roots()[0].as_usize_spec() == 0,
    {
        let p = Persistent { nodes: vec![node], roots: vec![Ref(0)] };
        p
    }

    /// The newest root of the tree.
    pub fn root(&self) -> (r: Ref)
        requires
            self.spec_roots().len() > 0,
        ensures
            r == self.spec_roots().last(),
    {
        self.roots[self.roots.len() - 1]
    }

    /// Gets node from a reference, returning [`None`] if the reference is invalid.
    pub fn get_node(&self, id: Ref) -> (n: Option<&Node>)
        ensures
            id.as_usize_spec() < self.spec_nodes().len() ==> n == Some(
                &self.spec_nodes()[id.as_usize_spec() as int],
            ),
            id.as_usize_spec() >= self.spec_nodes().len() ==> n is None,
    {
        if id.0 < self.nodes.len() {
            Some(&self.nodes[id.0])
        } else {
            None
        }
    }
}

impl<Node: Default> Persistent<Node> {
    /// A store holding only the default node, as the only root.
    pub fn new() -> (p: Self)
        ensures
            p.spec_nodes().len() == 1,
            p.spec_roots().len() == 1 && p.spec_roots()[0].as_usize_spec() == 0,
    {
        Self::with_root(Node::default())
    }
}

} // verus!
