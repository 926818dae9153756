//! Paths from the root of a tree to the cursor, as the nodes passed on the way.

use vstd::prelude::*;

use crate::ast_spec::json::{node_children, JSON};
use crate::ast_spec::vec_node_map::{Index, VecNodeMap};
use crate::base::Direction;

verus! {

/// One part of a path from the root of a tree to the cursor: a reference to the node at that
/// point of the path, and the index of that node among its parent's children.  For the first
/// segment (which is the tree's root) the index doesn't matter.
#[derive(Debug, Copy, Clone)]
pub struct Segment {
    pub node: Index,
    pub sibling_index: usize,
}

impl Segment {
    /// Constructs a new `Segment` from its component parts
    pub fn new(node_index: Index, sibling_index: usize) -> (s: Segment)
        ensures
            s.node == node_index,
            s.sibling_index == sibling_index,
    {
        Segment { node: node_index, sibling_index }
    }

    /// Constructs a `Segment` that is correct for representing the root of a tree
    pub fn root(node_index: Index) -> (s: Segment)
        ensures
            s.node == node_index,
            s.sibling_index == 0,
    {
        Self::new(node_index, 0)
    }
}

/// A full path of [`Segment`]s, which always has at least one [`Segment`].
#[derive(Debug, Clone)]
pub struct SegPath {
    segments: Vec<Segment>,
}

impl View for SegPath {
    type V = Seq<Segment>;

    closed spec fn view(&self) -> Seq<Segment> {
        self.segments@
    }
}

/// The error message of a move in a direction that has no implementation.
pub open spec fn unimplemented_move(direction: Direction) -> Seq<char> {
    match direction {
        Direction::Up => "Direction Up not implemented yet."@,
        Direction::Down => "Direction Down not implemented yet."@,
        Direction::Prev => "Direction Prev not implemented yet."@,
        Direction::Next => "Direction Next not implemented yet."@,
    }
}

impl SegPath {
    /// A path that holds only the root of a tree.
    pub fn with_root(root: Index) -> (p: SegPath)
        ensures
            p@ == seq![Segment { node: root, sibling_index: 0 }],
    {
        let p = SegPath { segments: vec![Segment::new(root, 0)] };
        assert(p@ =~= seq![Segment { node: root, sibling_index: 0 }]);
        p
    }

    /// The reference of the node at the end of the path.
    pub fn node(&self) -> (n: Index)
        requires
            self@.len() > 0,
        ensures
            n == self@.last().node,
    {
        self.segments[self.segments.len() - 1].node
    }

    /// Moves the end of the path up to the parent or down to the first child of the node there.
    /// Returns [`Some`] error message if the move is impossible or not implemented, and then
    /// leaves the path as it is.
    pub fn _move(&mut self, direction: Direction, node_map: &VecNodeMap<JSON>) -> (r: Option<String>)
        requires
            old(self)@.len() > 0,
            old(self)@.last().node.0 < node_map.spec_nodes().len(),
        ensures
            final(self)@.len() > 0,
            r is Some ==> final(self)@ == old(self)@,
            direction == Direction::Up ==> (old(self)@.len() == 1 <==> r is Some) && (r matches Some(
                m,
            ) ==> m@ == "Already at the tree root."@) && (r is None ==> final(self)@
                == old(self)@.drop_last()),
            direction == Direction::Down ==> {
                let children = node_children(node_map.spec_nodes()[old(self)@.last().node.0 as int]);
                &&& (children.len() == 0 <==> r is Some)
                &&& r matches Some(m) ==> m@ == "Current node has no children."@
                &&& r is None ==> final(self)@ == old(self)@.push(
                    Segment { node: children[0], sibling_index: 0 },
                )
            },
            (direction == Direction::Prev || direction == Direction::Next) ==> r == Some(
                r->Some_0,
            ) && r->Some_0@ == unimplemented_move(direction),
    {
        match direction {
            Direction::Up => {
                if self.segments.len() == 1 {
                    return Some(String::from_str("Already at the tree root."));
                }
                self.segments.pop();
            },
            Direction::Down => {
                let children = node_map.get_node(self.node()).unwrap().children();
                if children.len() > 0 {
                    self.segments.push(Segment::new(children[0], 0));
                } else {
                    return Some(String::from_str("Current node has no children."));
                }
            },
            Direction::Prev => {
                return Some(String::from_str("Direction Prev not implemented yet."));
            },
            Direction::Next => {
                return Some(String::from_str("Direction Next not implemented yet."));
            },
        }
        None
    }
}

} // verus!
