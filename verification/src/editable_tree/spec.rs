//! An editable tree that keeps a full copy of the tree for every step of its undo history.

use vstd::prelude::*;

use super::cursor_path::Segment;
use crate::ast_spec::json::{acyclic, map_text, same_json, JSON, JSONFormat};
use crate::ast_spec::vec_node_map::{Index, VecNodeMap};

verus! {

/// A snapshot of the undo history: the tree at that point of the history, and the path to the
/// cursor in it.
struct Snapshot {
    node_map: VecNodeMap<JSON>,
    cursor_path: Vec<Segment>,
}

/// The content of a snapshot: the nodes of its tree, its root and its cursor path.
pub type SnapshotView = (Seq<JSON>, nat, Seq<Segment>);

impl Snapshot {
    closed spec fn view(&self) -> SnapshotView {
        (self.node_map.spec_nodes(), self.node_map.spec_root(), self.cursor_path@)
    }

    /// Makes a `Snapshot` from a given [`VecNodeMap`] with the cursor selecting the root of that
    /// tree
    fn from_node_map(node_map: VecNodeMap<JSON>) -> (s: Snapshot)
        ensures
            s.view() == (node_map.spec_nodes(), node_map.spec_root(), seq![Segment { node: Index(node_map.spec_root() as usize), sibling_index: 0 }]),
    {
        let cursor = node_map.root();
        let s = Snapshot { node_map, cursor_path: vec![Segment::new(cursor, 0)] };
        assert(s.cursor_path@ =~= seq![Segment { node: cursor, sibling_index: 0 }]);
        s
    }

    /// A copy of this snapshot
    fn clone_snapshot(&self) -> (s: Snapshot)
        ensures
            s.view().1 == self.view().1,
            s.view().2 == self.view().2,
            s.view().0.len() == self.view().0.len(),
            forall|i: int| 0 <= i < self.view().0.len() ==> same_json(#[trigger] s.view().0[i], self.view().0[i]),
    {
        Snapshot { node_map: self.node_map.clone_map(), cursor_path: self.cursor_path.clone() }
    }
}

/// An editable tree that is used as a specification to test other editable trees against.  No
/// effort is made to make `Spec` performant in any way - the important thing is that it should
/// be difficult to introduce unintended behaviour.
///
/// This works by storing the history as a sequence of snapshots of [`VecNodeMap`]s for the trees
/// along with any other metadata about that save state.  Every edit of the tree causes the last
/// snapshot to be cloned and the edits made on the new snapshot.  Therefore, undoing is as simple
/// as just subtracting `1` from `current_snapshot_index` to make it point to a previous
/// snapshot.
pub struct Spec {
    /// The sequence of snapshots that represents the undo history.  This always contains at
    /// least one item.
    history: Vec<Snapshot>,
    /// The index of the current snapshot, which always points into `history`.
    current_snapshot_index: usize,
}

impl Spec {
    /// The snapshots of the undo history.
    pub closed spec fn snapshots(&self) -> Seq<SnapshotView> {
        self.history@.map_values(|s: Snapshot| s.view())
    }

    /// The position of the current snapshot in the history.
    pub closed spec fn index(&self) -> nat {
        self.current_snapshot_index as nat
    }

    /// The history is non-empty, the position lies in it, and every cursor path is non-empty.
    pub open spec fn wf(&self) -> bool {
        &&& self.snapshots().len() > 0
        &&& self.index() < self.snapshots().len()
        &&& forall|k: int| 0 <= k < self.snapshots().len() ==> (#[trigger] self.snapshots()[k]).2.len() > 0
    }

    /// The current snapshot.
    pub open spec fn current(&self) -> SnapshotView {
        self.snapshots()[self.index() as int]
    }

    /// Makes a `Spec` that contains the tree stored inside `node_map`
    pub fn from_tree(node_map: VecNodeMap<JSON>) -> (s: Self)
        ensures
            s.wf(),
            s.snapshots().len() == 1,
            s.index() == 0,
            s.current() == (node_map.spec_nodes(), node_map.spec_root(), seq![Segment { node: Index(node_map.spec_root() as usize), sibling_index: 0 }]),
    {
        let s = Spec { history: vec![Snapshot::from_node_map(node_map)], current_snapshot_index: 0 };
        assert(s.snapshots().len() == 1);
        s
    }

    /// Makes a `Spec` of a tree holding only the default node.
    pub fn new() -> (s: Self)
        ensures
            s.wf(),
            s.snapshots().len() == 1,
            s.index() == 0,
            s.current().1 == 0,
            s.current().0.len() == 1,
    {
        Self::from_tree(VecNodeMap::with_root(JSON::Object(Vec::new())))
    }

    /// Returns the currently viewed snapshot
    fn snapshot(&self) -> (s: &Snapshot)
        requires
            self.wf(),
        ensures
            s.view() == self.current(),
    {
        &self.history[self.current_snapshot_index]
    }

    /// Adds a new snapshot to the tree history (deleting the current redo history if needed).
    fn make_change(&mut self, snapshot: Snapshot)
        requires
            old(self).wf(),
            old(self).snapshots().len() < usize::MAX,
            snapshot.view().2.len() > 0,
        ensures
            final(self).wf(),
            final(self).index() == old(self).index() + 1,
            final(self).snapshots() == old(self).snapshots().take(old(self).index() + 1 as int).push(snapshot.view()),
    {
        let ghost before = self.snapshots();
        // Delete the history that happened in front of the current snapshot
        while self.history.len() > self.current_snapshot_index + 1
            invariant
                self.current_snapshot_index < self.history@.len() <= before.len(),
                self.current_snapshot_index == old(self).index(),
                self.snapshots() == before.take(self.history@.len() as int),
            decreases self.history@.len(),
        {
            self.history.pop();
            assert(self.snapshots() =~= before.take(self.history@.len() as int));
        }
        // Add the new snapshot
        self.history.push(snapshot);
        self.current_snapshot_index = self.current_snapshot_index + 1;
        assert(self.snapshots() =~= before.take(old(self).index() + 1 as int).push(snapshot.view()));
    }

    /// Gets a node of the current tree from a reference, returning [`None`] if the reference is
    /// invalid.
    pub fn get_node(&self, id: Index) -> (n: Option<&JSON>)
        requires
            self.wf(),
        ensures
            id.0 < self.current().0.len() ==> n == Some(&self.current().0[id.0 as int]),
            id.0 >= self.current().0.len() ==> n is None,
    {
        self.snapshot().node_map.get_node(id)
    }

    /// The reference to the root of the current tree.
    pub fn root(&self) -> (r: Index)
        requires
            self.wf(),
        ensures
            r.0 == self.current().1,
    {
        self.snapshot().node_map.root()
    }

    /// The reference to the node under the cursor.
    pub fn cursor(&self) -> (r: Index)
        requires
            self.wf(),
        ensures
            r == self.current().2.last().node,
    {
        let s = self.snapshot();
        s.cursor_path[s.cursor_path.len() - 1].node
    }

    /// Replaces the node under the cursor by `new_node`, as a new step of the history.
    pub fn replace_cursor(&mut self, new_node: JSON)
        requires
            old(self).wf(),
            old(self).snapshots().len() < usize::MAX,
        ensures
            final(self).wf(),
            final(self).index() == old(self).index() + 1,
            final(self).snapshots().take(old(self).index() + 1 as int) == old(self).snapshots().take(old(self).index() + 1 as int),
            final(self).snapshots().len() == old(self).index() + 2,
            final(self).current().1 == old(self).current().1,
            final(self).current().2 == old(self).current().2,
            final(self).current().0.len() == old(self).current().0.len(),
            forall|i: int| 0 <= i < old(self).current().0.len() && i != old(self).current().2.last().node.0 ==> same_json(#[trigger] final(self).current().0[i], old(self).current().0[i]),
            old(self).current().2.last().node.0 < old(self).current().0.len() ==> final(self).current().0[old(self).current().2.last().node.0 as int] == new_node,
    {
        let mut new_snapshot = self.snapshot().clone_snapshot();
        // Overwrite the node under the cursor
        let cursor = new_snapshot.cursor_path[new_snapshot.cursor_path.len() - 1].node;
        new_snapshot.node_map.overwrite_node(cursor, new_node);
        let ghost before = self.snapshots();
        self.make_change(new_snapshot);
        assert(self.snapshots().take(old(self).index() + 1 as int) =~= before.take(old(self).index() + 1 as int));
    }

    /// Writes the text of the current tree to a string.
    pub fn write_text(&self, string: &mut String, format: &JSONFormat)
        requires
            self.wf(),
            acyclic(self.current().0),
        ensures
            final(string)@ == old(string)@ + map_text(self.current().0, self.current().1, *format == JSONFormat::Pretty),
    {
        self.snapshot().node_map.write_text(string, format);
    }
}

} // verus!
