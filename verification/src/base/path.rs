//! A way of representing the **location** of a node within a tree.

use vstd::prelude::*;

use crate::ast::json::{spec_children, Json};

verus! {

/// A tree-independent struct for representing the locations of nodes within trees: the
/// sequence of child indices followed from the root.
#[derive(Debug, PartialEq, Eq)]
pub struct Path {
    child_indices: Vec<usize>,
}

/// The node reached by following the child indices `path` down from `root`, if every index
/// names an existing child.
pub open spec fn node_at<'a>(root: Json<'a>, path: Seq<usize>) -> Option<Json<'a>>
    decreases path.len(),
{
    if path.len() == 0 {
        Some(root)
    } else if path[0] < spec_children(root).len() {
        node_at(*spec_children(root)[path[0] as int], path.drop_first())
    } else {
        None
    }
}

/// `path` leads to a node of the tree under `root`.
pub open spec fn valid_path<'a>(root: Json<'a>, path: Seq<usize>) -> bool {
    node_at(root, path) is Some
}

/// Following one more child index from the end of a path moves to a child of the node reached.
pub proof fn lemma_node_at_push<'a>(root: Json<'a>, path: Seq<usize>, i: usize)
    ensures
        node_at(root, path.push(i)) == match node_at(root, path) {
            Some(n) => if i < spec_children(n).len() {
                Some(*spec_children(n)[i as int])
            } else {
                None
            },
            None => None,
        },
    decreases path.len(),
{
    if path.len() == 0 {
        assert(path.push(i).drop_first() =~= Seq::<usize>::empty());
        assert(path.push(i)[0] == i);
        if i < spec_children(root).len() {
            let c = *spec_children(root)[i as int];
            assert(node_at(c, Seq::<usize>::empty()) == Some(c));
        }
    } else {
        assert(path.push(i).drop_first() =~= path.drop_first().push(i));
        assert(path.push(i)[0] == path[0]);
        if path[0] < spec_children(root).len() {
            lemma_node_at_push(*spec_children(root)[path[0] as int], path.drop_first(), i);
        }
    }
}

/// Every prefix of a path that leads to a node leads to a node.
pub proof fn lemma_valid_prefix<'a>(root: Json<'a>, path: Seq<usize>, k: int)
    requires
        valid_path(root, path),
        0 <= k <= path.len(),
    ensures
        valid_path(root, path.take(k)),
    decreases path.len() - k,
{
    if k < path.len() {
        lemma_valid_prefix(root, path, k + 1);
        assert(path.take(k + 1) =~= path.take(k).push(path[k]));
        lemma_node_at_push(root, path.take(k), path[k]);
    } else {
        assert(path.take(k) =~= path);
    }
}

impl View for Path {
    type V = Seq<usize>;

    closed spec fn view(&self) -> Seq<usize> {
        self.child_indices@
    }
}

impl Clone for Path {
    fn clone(&self) -> (p: Path)
        ensures
            p@ == self@,
    {
        Path { child_indices: self.child_indices.clone() }
    }
}

impl Path {
    /// Creates a cursor path from a given [`Vec`]
    pub fn from_vec(vec: Vec<usize>) -> (p: Path)
        ensures
            p@ == vec@,
    {
        Path { child_indices: vec }
    }

    /// Creates a cursor path that refers to the root of any tree.
    pub fn root() -> (p: Path)
        ensures
            p@ == Seq::<usize>::empty(),
    {
        Self::from_vec(Vec::new())
    }

    /// Return the depth of the cursor in the tree.  The root has depth `0`.
    pub fn depth(&self) -> (d: usize)
        ensures
            d == self@.len(),
    {
        self.child_indices.len()
    }

    /// Pushes a new child onto the path.  This has the effect of moving the cursor one level down
    /// the tree, to the `new_child_index`th child of the node the `Path` is currently pointing at.
    pub fn push(&mut self, new_child_index: usize)
        ensures
            final(self)@ == old(self)@.push(new_child_index),
    {
        self.child_indices.push(new_child_index);
    }

    /// Removes and returns the last child from the path (if it exists).  This has the effect of
    /// moving the cursor to its parent, and returning the old cursor's sibling index.  Returns
    /// `None` if the path referred to the root of the tree (and therefore the pop had no effect).
    pub fn pop(&mut self) -> (r: Option<usize>)
        ensures
            old(self)@.len() == 0 ==> r is None && final(self)@ == old(self)@,
            old(self)@.len() > 0 ==> r == Some(old(self)@.last()) && final(self)@
                == old(self)@.drop_last(),
    {
        self.child_indices.pop()
    }

    /// Returns `true` if this path refers to the root of any tree (i.e. the path has no segments).
    pub fn is_root(&self) -> (b: bool)
        ensures
            b == (self@.len() == 0),
    {
        self.child_indices.len() == 0
    }

    /// Returns the last child index in the path (if it exists).
    pub fn last(&self) -> (r: Option<usize>)
        ensures
            self@.len() == 0 ==> r is None,
            self@.len() > 0 ==> r == Some(self@.last()),
    {
        let n = self.child_indices.len();
        if n == 0 {
            None
        } else {
            Some(self.child_indices[n - 1])
        }
    }

    /// Returns a mutable reference to the last child index in the path (if it exists).
    pub fn last_mut(&mut self) -> (r: Option<&mut usize>)
        ensures
            old(self)@.len() == 0 ==> r is None && final(self)@ == old(self)@,
            old(self)@.len() > 0 ==> r is Some && *r.unwrap() == old(self)@.last()
                && final(self)@ == old(self)@.update(
                old(self)@.len() - 1,
                *final(r.unwrap()),
            ),
    {
        self.child_indices.as_mut_slice().last_mut()
    }

    /// Walks this path down from the given root, and returns the nodes it passes through: the
    /// root first, then one node per child index.
    pub fn node_iter<'arena>(&self, root: &'arena Json<'arena>) -> (nodes: Vec<&'arena Json<'arena>>)
        requires
            valid_path(*root, self@),
        ensures
            nodes@.len() == self@.len() + 1,
            forall|k: int|
                0 <= k <= self@.len() ==> Some(*#[trigger] nodes@[k]) == node_at(
                    *root,
                    self@.take(k),
                ),
    {
        let mut nodes: Vec<&'arena Json<'arena>> = Vec::new();
        let mut node = root;
        nodes.push(node);
        proof {
            assert(self@.take(0) =~= Seq::<usize>::empty());
        }
        let mut i: usize = 0;
        while i < self.child_indices.len()
            invariant
                i <= self@.len(),
                valid_path(*root, self@),
                nodes@.len() == i + 1,
                *nodes@[i as int] == *node,
                forall|k: int|
                    0 <= k <= i ==> Some(*#[trigger] nodes@[k]) == node_at(*root, self@.take(k)),
            decreases self@.len() - i,
        {
            proof {
                lemma_valid_prefix(*root, self@, i + 1);
                assert(self@.take(i + 1) =~= self@.take(i as int).push(self@[i as int]));
                lemma_node_at_push(*root, self@.take(i as int), self@[i as int]);
            }
            node = node.child(self.child_indices[i]);
            nodes.push(node);
            i = i + 1;
        }
        nodes
    }

    /// Walks this path down from the given root, and returns the node that lies underneath the
    /// cursor.
    pub fn cursor<'arena>(&self, root: &'arena Json<'arena>) -> (c: &'arena Json<'arena>)
        requires
            valid_path(*root, self@),
        ensures
            Some(*c) == node_at(*root, self@),
    {
        let nodes = self.node_iter(root);
        proof {
            assert(self@.take(self@.len() as int) =~= self@);
        }
        nodes[nodes.len() - 1]
    }

    /// Walks this path down from the given root, and returns the node that lies underneath the
    /// cursor, along with the direct parent of that node (if it exists).
    pub fn cursor_and_parent<'arena>(&self, root: &'arena Json<'arena>) -> (r: (
        &'arena Json<'arena>,
        Option<&'arena Json<'arena>>,
    ))
        requires
            valid_path(*root, self@),
        ensures
            Some(*r.0) == node_at(*root, self@),
            self@.len() == 0 ==> r.1 is None,
            self@.len() > 0 ==> r.1 is Some && Some(*r.1.unwrap()) == node_at(
                *root,
                self@.drop_last(),
            ),
    {
        let nodes = self.node_iter(root);
        proof {
            assert(self@.take(self@.len() as int) =~= self@);
            if self@.len() > 0 {
                assert(self@.take(self@.len() - 1) =~= self@.drop_last());
                assert(nodes@[self@.len() - 1] == nodes@[nodes@.len() - 2]);
            }
        }
        let n = nodes.len();
        if n >= 2 {
            (nodes[n - 1], Some(nodes[n - 2]))
        } else {
            (nodes[n - 1], None)
        }
    }

    /// The `k`th child index of this path.
    pub fn index(&self, k: usize) -> (i: usize)
        requires
            k < self@.len(),
        ensures
            i == self@[k as int],
    {
        self.child_indices[k]
    }

    /// Returns an iterator over the child indices contained in this path.
    pub fn iter(&self) -> (it: std::slice::Iter<'_, usize>)
        ensures
            vstd::std_specs::iter::IteratorSpec::remaining(&it) == self@.as_ref(),
    {
        self.child_indices.as_slice().iter()
    }
}

} // verus!
