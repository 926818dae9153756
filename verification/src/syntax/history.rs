//! A history of syntax [`Tree`]s.

use std::collections::VecDeque;

use vstd::prelude::*;

use super::Tree;

verus! {

/// A [`History`] of syntax [`Tree`]s.
#[derive(Debug, Clone)]
pub struct History {
    /// The sequence of [`Tree`]s, each being a snapshot of a buffer after each edit.  These are
    /// stored in the order that they were created (i.e. oldest at the 'front', newest at the
    /// 'back').  This is never empty.
    trees: VecDeque<Tree>,
    /// The index (within `self.trees`) of the currently visible snapshot.  Undo decrements this
    /// counter, whilst redo increments it.  It is always below `trees.len()`.
    index: usize,
    /// The maximum number of undo steps which can be recorded in this history.  Once this limit
    /// is exceeded, the oldest snapshots will be dropped.
    max_undo_depth: usize,
}

impl History {
    /// The snapshots of the history, oldest first.
    pub closed spec fn snapshots(&self) -> Seq<Tree> {
        self.trees@
    }

    /// The index of the currently visible snapshot.
    pub closed spec fn current(&self) -> nat {
        self.index as nat
    }

    /// The maximum number of undo steps.
    pub closed spec fn max_depth(&self) -> nat {
        self.max_undo_depth as nat
    }

    /// The internal invariant of a history: it is never empty, and the visible snapshot is
    /// one of its snapshots.
    pub closed spec fn wf(&self) -> bool {
        self.index < self.trees@.len()
    }

    /// Creates a new `History` containing only one snapshot
    pub fn new(tree: Tree, max_undo_depth: usize) -> (h: Self)
        ensures
            h.wf(),
            h.snapshots() == seq![tree],
            h.current() == 0,
            h.max_depth() == max_undo_depth,
    {
        let mut trees = VecDeque::new();
        trees.push_back(tree);
        assert(trees@ == seq![tree]);
        Self { trees, index: 0, max_undo_depth }
    }
}

} // verus!
