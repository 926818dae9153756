//! A [`Vec`]-backed map from references to nodes.

use vstd::prelude::*;

verus! {

/// A small type used as a reference into Vec-powered node maps.  `Index` acts as a type-safe
/// alternative to just using [`usize`].
#[derive(Copy, Clone, PartialEq, Eq, Hash, Debug, Structural)]
pub struct Index(pub usize);

impl Index {
    /// Makes the reference to the node at position `val`.
    pub fn from_usize(val: usize) -> (i: Index)
        ensures
            i.0 == val,
    {
        Index(val)
    }

    /// The position of the referenced node.
    pub fn as_usize(self) -> (u: usize)
        ensures
            u == self.0,
    {
        self.0
    }
}

impl From<usize> for Index {
    fn from(val: usize) -> (i: Index)
        ensures
            i.0 == val,
    {
        Index(val)
    }
}

impl vstd::std_specs::convert::FromSpecImpl<usize> for Index {
    open spec fn obeys_from_spec() -> bool {
        true
    }

    open spec fn from_spec(v: usize) -> Index {
        Index(v)
    }
}

/// A map of nodes, stored in a [`Vec`] and referenced by their position in it.
pub struct VecNodeMap<Node> {
    nodes: Vec<Node>,
    root: Index,
}

impl<Node> VecNodeMap<Node> {
    /// The nodes of the map, in the order they were added.
    pub closed spec fn spec_nodes(&self) -> Seq<Node> {
        self.nodes@
    }

    /// The reference of the root node.
    pub closed spec fn spec_root(&self) -> nat {
        self.root.0 as nat
    }

    /// The root refers to a node of the map.
    pub open spec fn has_valid_root(&self) -> bool {
        self.spec_root() < self.spec_nodes().len()
    }

    /// Create a new `VecNodeMap` with a given `Node` as root
    pub fn with_root(node: Node) -> (m: Self)
        ensures
            m.spec_nodes() == seq![node],
            m.spec_root() == 0,
    {
        VecNodeMap { nodes: vec![node], root: Index(0) }
    }

    /// Get the reference of the root node of the tree
    pub fn root(&self) -> (r: Index)
        ensures
            r.0 == self.spec_root(),
    {
        self.root
    }

    /// Gets node from a reference, returning [`None`] if the reference is invalid.
    pub fn get_node(&self, id: Index) -> (n: Option<&Node>)
        ensures
            id.0 < self.spec_nodes().len() ==> n == Some(&self.spec_nodes()[id.0 as int]),
            id.0 >= self.spec_nodes().len() ==> n is None,
    {
        if id.0 < self.nodes.len() {
            Some(&self.nodes[id.0])
        } else {
            None
        }
    }

    /// Add a new `Node` to the tree, and return its reference
    pub fn add_node(&mut self, node: Node) -> (r: Index)
        requires
            old(self).spec_nodes().len() < usize::MAX,
        ensures
            final(self).spec_nodes() == old(self).spec_nodes().push(node),
            final(self).spec_root() == old(self).spec_root(),
            r.0 == old(self).spec_nodes().len(),
    {
        self.nodes.push(node);
        Index(self.nodes.len() - 1)
    }

    /// Set the root of the tree to be the node at a given reference, returning `true` if the
    /// reference was valid.  If the reference was invalid, the root will not be replaced and
    /// `false` will be returned.
    pub fn set_root(&mut self, new_root: Index) -> (ok: bool)
        ensures
            ok == (new_root.0 < old(self).spec_nodes().len()),
            final(self).spec_nodes() == old(self).spec_nodes(),
            final(self).spec_root() == if ok {
                new_root.0 as nat
            } else {
                old(self).spec_root()
            },
    {
        if new_root.0 < self.nodes.len() {
            self.root = new_root;
            true
        } else {
            false
        }
    }

    /// Overwrite a node currently in the tree with another one.  Returns `true` if `id` points
    /// to an existing node, if not it will return `false` and not do the subsitution.
    pub fn overwrite_node(&mut self, id: Index, node: Node) -> (ok: bool)
        ensures
            ok == (id.0 < old(self).spec_nodes().len()),
            ok ==> final(self).spec_nodes() == old(self).spec_nodes().update(id.0 as int, node),
            !ok ==> final(self).spec_nodes() == old(self).spec_nodes(),
            final(self).spec_root() == old(self).spec_root(),
    {
        if id.0 < self.nodes.len() {
            self.nodes.set(id.0, node);
            true
        } else {
            false
        }
    }

    /// Adds a new node and set it to the tree's root
    pub fn add_as_root(&mut self, new_root_node: Node) -> (r: Index)
        requires
            old(self).spec_nodes().len() < usize::MAX,
        ensures
            final(self).spec_nodes() == old(self).spec_nodes().push(new_root_node),
            final(self).spec_root() == r.0,
            r.0 == old(self).spec_nodes().len(),
    {
        let r = self.add_node(new_root_node);
        self.set_root(r);
        r
    }
}

impl VecNodeMap<super::json::JSON> {
    /// A copy of this map: the same root, and the same nodes.
    pub fn clone_map(&self) -> (m: Self)
        ensures
            m.spec_root() == self.spec_root(),
            m.spec_nodes().len() == self.spec_nodes().len(),
            forall|i: int|
                0 <= i < self.spec_nodes().len() ==> super::json::same_json(
                    #[trigger] m.spec_nodes()[i],
                    self.spec_nodes()[i],
                ),
    {
        let mut nodes: Vec<super::json::JSON> = Vec::new();
        let mut i: usize = 0;
        while i < self.nodes.len()
            invariant
                i <= self.nodes@.len(),
                nodes@.len() == i,
                forall|k: int| 0 <= k < i ==> super::json::same_json(#[trigger] nodes@[k], self.nodes@[k]),
            decreases self.nodes@.len() - i,
        {
            nodes.push(self.nodes[i].clone());
            i = i + 1;
        }
        VecNodeMap { nodes, root: self.root }
    }
}

} // verus!
