//! Code for an editable, undoable forest of syntax trees.

pub mod cursor_path;
pub mod persistent;
pub mod spec;

use vstd::prelude::*;

use crate::arena::Arena;
use crate::ast::display_token::INDENT_WIDTH;
use crate::ast::json::{
    can_insert_into, created_from_char, flat, node_chars, quoted, render, same_kind, spec_children,
    spec_display_name, Json, JsonFormat,
};
use crate::ast::DeleteError;
use crate::base::path::{lemma_node_at_push, lemma_valid_prefix, node_at, valid_path};
pub use crate::base::{Direction, Side};
use crate::base::{string_pop, string_push, Path};

verus! {

/// An enum that's returned when any of the 'edit' methods in [`DAG`] are successful.
#[derive(Debug, PartialEq, Eq)]
pub enum EditSuccess {
    Undo,
    Redo,
    Replace { c: char, name: String },
    InsertChild { c: char, name: String },
    InsertNextToCursor { side: Side, c: char, name: String },
}

/// An error that represents an error in any of the 'edit' methods in [`DAG`].
#[derive(Debug, PartialEq, Eq)]
pub enum EditErr {
    /// Trying to undo the earliest change
    NoChangesToUndo,
    /// Trying to redo the latest change
    NoChangesToRedo,
    /// The user typed a char that doesn't correspond to any node
    CharNotANode(char),
    /// Trying to replace a node with one that cannot be a child of its parent
    CannotReplace(char),
    /// Trying to insert a node that cannot be a child of the cursor
    CannotInsertInto { c: char, parent_name: String },
    /// Trying to add a sibling to the root
    AddSiblingToRoot,
}

/// An alias for [`Result`] that is the return type of all of [`DAG`]'s edit methods.
pub type EditResult = Result<EditSuccess, EditErr>;

/// The state of a [`DAG`]: the root and cursor path of every tree in the undo history, the
/// position in that history, and the cursor path.
#[verifier::ext_equal]
pub struct DagView<'a> {
    pub history: Seq<(Json<'a>, Seq<usize>)>,
    pub index: nat,
    pub cursor: Seq<usize>,
}

impl<'a> DagView<'a> {
    /// The history is non-empty, the position lies in it, and every stored cursor path and the
    /// current cursor path lead to nodes of their trees.
    pub open spec fn wf(self) -> bool {
        &&& self.history.len() > 0
        &&& self.index < self.history.len()
        &&& forall|k: int|
            0 <= k < self.history.len() ==> #[trigger] valid_path(
                self.history[k].0,
                self.history[k].1,
            )
        &&& valid_path(self.history[self.index as int].0, self.cursor)
    }

    /// The root of the current tree.
    pub open spec fn root(self) -> Json<'a> {
        self.history[self.index as int].0
    }

    /// The node under the cursor.
    pub open spec fn cursor_node(self) -> Json<'a> {
        node_at(self.root(), self.cursor)->Some_0
    }

    /// The parent of the node under the cursor.
    pub open spec fn parent_node(self) -> Json<'a> {
        node_at(self.root(), self.cursor.drop_last())->Some_0
    }
}

/// The state after an undo: one step back in the history, with the cursor where it was in
/// that snapshot.  There is nothing to undo at the start of the history.
pub open spec fn undone<'a>(v: DagView<'a>) -> DagView<'a> {
    if v.index == 0 {
        v
    } else {
        DagView { history: v.history, index: (v.index - 1) as nat, cursor: v.history[v.index - 1].1 }
    }
}

/// The state after a redo: one step forward in the history, with the cursor where it was in
/// that snapshot.  There is nothing to redo at the end of the history.
pub open spec fn redone<'a>(v: DagView<'a>) -> DagView<'a> {
    if v.index + 1 >= v.history.len() {
        v
    } else {
        DagView { history: v.history, index: v.index + 1, cursor: v.history[v.index + 1 as int].1 }
    }
}

/// The cursor path after moving in `direction`, or `None` where the move is impossible: down
/// to the first child, up to the parent, or to the previous or next sibling.
pub open spec fn moved<'a>(v: DagView<'a>, direction: Direction) -> Option<Seq<usize>> {
    let p = v.cursor;
    match direction {
        Direction::Down => if spec_children(v.cursor_node()).len() == 0 {
            None
        } else {
            Some(p.push(0))
        },
        Direction::Up => if p.len() == 0 {
            None
        } else {
            Some(p.drop_last())
        },
        Direction::Prev => if p.len() == 0 || p.last() == 0 {
            None
        } else {
            Some(p.update(p.len() - 1, (p.last() - 1) as usize))
        },
        Direction::Next => if p.len() == 0 || p.last() + 1 >= spec_children(v.parent_node()).len() {
            None
        } else {
            Some(p.update(p.len() - 1, (p.last() + 1) as usize))
        },
    }
}

/// The error message of a move that is impossible.
pub open spec fn move_error(v: DagView, direction: Direction) -> Seq<char> {
    match direction {
        Direction::Down => "Cannot move down the tree if the cursor has no children."@,
        Direction::Up => "Cannot move to the parent of the root."@,
        Direction::Prev => if v.cursor.len() == 0 {
            "Cannot move to a sibling of the root."@
        } else {
            "Cannot move before the first child of a node."@
        },
        Direction::Next => if v.cursor.len() == 0 {
            "Cannot move to a sibling of the root."@
        } else {
            "Cannot move past the last sibling of a node."@
        },
    }
}

/// `new` is the tree `old` with only the subtree at `path` changed: along the path each node
/// keeps its kind and all its other children.
pub open spec fn same_except<'a>(old: Json<'a>, new: Json<'a>, path: Seq<usize>) -> bool
    decreases path.len(),
{
    if path.len() == 0 {
        true
    } else {
        &&& same_kind(new, old)
        &&& spec_children(new).len() == spec_children(old).len()
        &&& path[0] < spec_children(old).len()
        &&& forall|i: int|
            0 <= i < spec_children(old).len() && i != path[0] ==> #[trigger] spec_children(new)[i]
                == spec_children(old)[i]
        &&& same_except(
            *spec_children(old)[path[0] as int],
            *spec_children(new)[path[0] as int],
            path.drop_first(),
        )
    }
}

/// `w` is `v` after an edit of the subtree at `path` was committed: the redo history is gone,
/// the new tree, whose cursor path is stored as `stored`, is the newest, and it differs from the
/// old one only under `path`.
pub open spec fn committed<'a>(
    v: DagView<'a>,
    w: DagView<'a>,
    path: Seq<usize>,
    stored: Seq<usize>,
) -> bool {
    &&& w.index == v.index + 1
    &&& w.history == v.history.take(v.index + 1 as int).push((w.root(), stored))
    &&& same_except(v.root(), w.root(), path)
}

/// `x`, the child inserted by typing `c`, is the node for `c`, or, inserted into an object, a
/// field of an empty key and the node for `c`.
pub open spec fn inserted_child_ok<'a>(x: Json<'a>, c: char, into_object: bool) -> bool {
    if into_object {
        x matches Json::Field(k, v) && (*k matches Json::Str(s) && s@.len() == 0)
            && created_from_char(*v, c)
    } else {
        created_from_char(x, c)
    }
}

/// `n` is `old` with the child for `c` inserted at `index`.
pub open spec fn inserted_at<'a>(old: Json<'a>, n: Json<'a>, index: int, c: char) -> bool {
    &&& same_kind(n, old)
    &&& spec_children(n).len() == spec_children(old).len() + 1
    &&& spec_children(n) == spec_children(old).insert(index, spec_children(n)[index])
    &&& inserted_child_ok(*spec_children(n)[index], c, old is Object)
}

/// Following a path that a tree and an edited copy share leads to a node in both.
pub proof fn lemma_same_except_valid<'a>(old: Json<'a>, new: Json<'a>, path: Seq<usize>, q: Seq<usize>)
    requires
        same_except(old, new, path),
        q.len() <= path.len(),
        q == path.take(q.len() as int),
    ensures
        valid_path(new, q),
    decreases q.len(),
{
    if q.len() > 0 {
        assert(q[0] == path[0]);
        assert(q.drop_first() =~= path.drop_first().take(q.len() - 1));
        lemma_same_except_valid(
            *spec_children(old)[path[0] as int],
            *spec_children(new)[path[0] as int],
            path.drop_first(),
            q.drop_first(),
        );
    }
}

/// The display name of the node that typing `c` creates.
pub open spec fn created_name(c: char) -> Seq<char> {
    if c == 't' {
        seq!['t', 'r', 'u', 'e']
    } else if c == 'f' {
        seq!['f', 'a', 'l', 's', 'e']
    } else if c == 'n' {
        seq!['n', 'u', 'l', 'l']
    } else if c == 'a' {
        seq!['a', 'r', 'r', 'a', 'y']
    } else if c == 'o' {
        seq!['o', 'b', 'j', 'e', 'c', 't']
    } else {
        seq!['"', '"']
    }
}

/// The display name of a node created from `c` is the name of `c`'s node.
proof fn lemma_created_name<'a>(n: Json<'a>, c: char)
    requires
        created_from_char(n, c),
    ensures
        spec_display_name(n) == created_name(c),
{
    if n is Str {
        assert(quoted(n->Str_0@) =~= seq!['"', '"']);
    }
}

/// A state that results from committing an edit, whose new tree contains the cursor path and
/// the stored path, is well-formed.
proof fn lemma_committed_wf<'a>(v: DagView<'a>, w: DagView<'a>, path: Seq<usize>, stored: Seq<usize>)
    requires
        v.wf(),
        committed(v, w, path, stored),
        valid_path(w.root(), stored),
        valid_path(w.root(), w.cursor),
    ensures
        w.wf(),
{
    assert forall|k: int| 0 <= k < w.history.len() implies #[trigger] valid_path(
        w.history[k].0,
        w.history[k].1,
    ) by {
        if k < v.index + 1 {
            assert(w.history[k] == v.history[k]);
        }
    }
}

/// What [`DAG::undo`] does: the history steps back, if it can.
pub open spec fn undo_post<'a>(v: DagView<'a>, w: DagView<'a>, r: EditResult) -> bool {
    &&& w == undone(v)
    &&& w.wf()
    &&& v.index == 0 ==> r == EditResult::Err(EditErr::NoChangesToUndo)
    &&& v.index > 0 ==> r == EditResult::Ok(EditSuccess::Undo)
}

/// What [`DAG::redo`] does: the history steps forward, if it can.
pub open spec fn redo_post<'a>(v: DagView<'a>, w: DagView<'a>, r: EditResult) -> bool {
    &&& w == redone(v)
    &&& w.wf()
    &&& v.index + 1 >= v.history.len() ==> r == EditResult::Err(EditErr::NoChangesToRedo)
    &&& v.index + 1 < v.history.len() ==> r == EditResult::Ok(EditSuccess::Redo)
}

/// What [`DAG::move_cursor`] does: the cursor moves in `direction`, or stays with an error
/// message saying why it can't.
pub open spec fn move_post<'a>(v: DagView<'a>, w: DagView<'a>, direction: Direction, r: Option<String>) -> bool {
    &&& w.wf()
    &&& w.history == v.history
    &&& w.index == v.index
    &&& r is None <==> moved(v, direction) is Some
    &&& r is None ==> w.cursor == moved(v, direction)->Some_0
    &&& r matches Some(msg) ==> msg@ == move_error(v, direction) && w.cursor == v.cursor
}

/// What [`DAG::replace_cursor`] does: the cursor is replaced by the node of `c`, if `c` makes
/// one.
pub open spec fn replace_post<'a>(v: DagView<'a>, w: DagView<'a>, c: char, r: EditResult) -> bool {
    &&& w.wf()
    &&& node_chars().contains(c) <==> r is Ok
    &&& r is Err ==> r == EditResult::Err(EditErr::CannotReplace(c)) && w == v
    &&& r is Ok ==> committed(v, w, v.cursor, v.cursor) && w.cursor == v.cursor
        && created_from_char(w.cursor_node(), c)
    &&& r matches Ok(s) ==> (s matches EditSuccess::Replace { c: c2, name } && c2 == c && name@
        == created_name(c))
}

/// What [`DAG::insert_child`] does: the node of `c` becomes the cursor's last child and the
/// new cursor, if the cursor can hold it.
pub open spec fn insert_child_post<'a>(v: DagView<'a>, w: DagView<'a>, c: char, r: EditResult) -> bool {
    &&& w.wf()
    &&& (can_insert_into(v.cursor_node()) && node_chars().contains(c)) <==> r is Ok
    &&& r is Err ==> w == v
    &&& r matches Err(e) ==> (e matches EditErr::CannotInsertInto { c: c2, parent_name } && c2
        == c && parent_name@ == spec_display_name(v.cursor_node()))
    &&& r is Ok ==> committed(v, w, v.cursor, v.cursor) && inserted_at(
        v.cursor_node(),
        node_at(w.root(), v.cursor)->Some_0,
        spec_children(v.cursor_node()).len() as int,
        c,
    ) && w.cursor == v.cursor.push(spec_children(v.cursor_node()).len() as usize)
    &&& r matches Ok(s) ==> (s matches EditSuccess::InsertChild { c: c2, name } && c2 == c
        && name@ == created_name(c))
}

/// What [`DAG::insert_next_to_cursor`] does: the node of `c` is inserted on the `side` of the
/// cursor and becomes the new cursor, if the cursor's parent can hold it.
pub open spec fn insert_next_post<'a>(
    v: DagView<'a>,
    w: DagView<'a>,
    c: char,
    side: Side,
    r: EditResult,
) -> bool {
    &&& w.wf()
    &&& v.cursor.len() == 0 ==> r == EditResult::Err(EditErr::AddSiblingToRoot)
    &&& (v.cursor.len() > 0 && can_insert_into(v.parent_node()) && node_chars().contains(c))
        <==> r is Ok
    &&& r is Err ==> w == v
    &&& r matches Err(e) ==> v.cursor.len() > 0 ==> (e matches EditErr::CannotInsertInto {
        c: c2,
        parent_name,
    } && c2 == c && parent_name@ == spec_display_name(v.parent_node()))
    &&& r is Ok ==> {
        let p = v.cursor;
        let index = p.last() + if side == Side::Next {
            1int
        } else {
            0int
        };
        &&& committed(v, w, p.drop_last(), p)
        &&& inserted_at(v.parent_node(), node_at(w.root(), p.drop_last())->Some_0, index, c)
        &&& w.cursor == p.drop_last().push(index as usize)
    }
    &&& r matches Ok(s) ==> (s matches EditSuccess::InsertNextToCursor { side: s2, c: c2, name }
        && s2 == side && c2 == c && name@ == created_name(c))
}

/// Where the cursor goes after deleting the child `i` of a parent at `p` which keeps `n`
/// children: up to the parent if none is left, else to the child that took its place, or to
/// the new last child if the last child was deleted.
pub open spec fn cursor_after_delete(p: Seq<usize>, i: usize, n: nat) -> Seq<usize> {
    if n == 0 {
        p
    } else if i == n {
        p.push((i - 1) as usize)
    } else {
        p.push(i)
    }
}

/// What [`DAG::delete_cursor`] does: a field keeps its children and reports an error;
/// otherwise the node under the cursor is removed from the children of its parent, and the
/// cursor moves as [`cursor_after_delete`] says.
pub open spec fn delete_post<'a>(v: DagView<'a>, w: DagView<'a>, r: Result<(), DeleteError>) -> bool {
    &&& w.wf()
    &&& v.parent_node() is Field ==> w == v && (r matches Err(
        DeleteError::TooFewChildren { name, min_children },
    ) && name@ == seq!['f', 'i', 'e', 'l', 'd'] && min_children == 2)
    &&& !(v.parent_node() is Field) ==> {
        let p = v.cursor.drop_last();
        let i = v.cursor.last();
        let kids = spec_children(v.parent_node()).remove(i as int);
        &&& r is Ok
        &&& w.cursor == cursor_after_delete(p, i, kids.len())
        &&& committed(v, w, p, w.cursor)
        &&& node_at(w.root(), p) matches Some(q) && same_kind(q, v.parent_node()) && spec_children(q) == kids
    }
}

/// Undoing a change and redoing it again returns to the same tree, at the same place in the
/// history.
pub proof fn law_undo_then_redo<'a>(v: DagView<'a>)
    requires
        v.wf(),
        v.index > 0,
    ensures
        redone(undone(v)).history == v.history,
        redone(undone(v)).index == v.index,
        redone(undone(v)).root() == v.root(),
{
}

/// Redoing a change and undoing it again returns to the same tree, at the same place in the
/// history.
pub proof fn law_redo_then_undo<'a>(v: DagView<'a>)
    requires
        v.wf(),
        v.index + 1 < v.history.len(),
    ensures
        undone(redone(v)).history == v.history,
        undone(redone(v)).index == v.index,
        undone(redone(v)).root() == v.root(),
{
}

/// After an edit there is nothing to redo: the edit discards the redo history.
pub proof fn law_edit_clears_redo<'a>(v: DagView<'a>, w: DagView<'a>, path: Seq<usize>, stored: Seq<usize>)
    requires
        v.wf(),
        committed(v, w, path, stored),
    ensures
        redone(w) == w,
        w.index + 1 == w.history.len(),
{
}

/// Undoing an edit returns to the tree from before the edit, and keeps the history up to it.
pub proof fn law_undo_reverts_edit<'a>(v: DagView<'a>, w: DagView<'a>, path: Seq<usize>, stored: Seq<usize>)
    requires
        v.wf(),
        committed(v, w, path, stored),
    ensures
        undone(w).root() == v.root(),
        undone(w).index == v.index,
        undone(w).history.take(v.index + 1 as int) == v.history.take(v.index + 1 as int),
        undone(w).cursor == v.history[v.index as int].1,
{
    assert(w.history.take(v.index + 1 as int) =~= v.history.take(v.index + 1 as int));
}

/// Moving the cursor down and then up returns it to where it was.
pub proof fn law_down_then_up<'a>(v: DagView<'a>)
    requires
        v.wf(),
        moved(v, Direction::Down) is Some,
    ensures
        moved(DagView { cursor: moved(v, Direction::Down)->Some_0, ..v }, Direction::Up) == Some(
            v.cursor,
        ),
{
    assert(v.cursor.push(0).drop_last() =~= v.cursor);
}

/// Moving the cursor to its previous sibling and then to the next one returns it to where it
/// was.
pub proof fn law_prev_then_next<'a>(v: DagView<'a>)
    requires
        v.wf(),
        moved(v, Direction::Prev) is Some,
    ensures
        moved(DagView { cursor: moved(v, Direction::Prev)->Some_0, ..v }, Direction::Next) == Some(
            v.cursor,
        ),
{
    let p = v.cursor;
    let q = p.update(p.len() - 1, (p.last() - 1) as usize);
    assert(q.drop_last() =~= p.drop_last());
    assert(p =~= p.drop_last().push(p.last()));
    lemma_node_at_push(v.root(), p.drop_last(), p.last());
    assert(q.update(q.len() - 1, (q.last() + 1) as usize) =~= p);
}

/// Moving the cursor to its next sibling and then to the previous one returns it to where it
/// was.
pub proof fn law_next_then_prev<'a>(v: DagView<'a>)
    requires
        v.wf(),
        moved(v, Direction::Next) is Some,
        spec_children(v.parent_node()).len() <= usize::MAX,
    ensures
        moved(DagView { cursor: moved(v, Direction::Next)->Some_0, ..v }, Direction::Prev) == Some(
            v.cursor,
        ),
{
    let p = v.cursor;
    let q = p.update(p.len() - 1, (p.last() + 1) as usize);
    assert(q.update(q.len() - 1, (q.last() - 1) as usize) =~= p);
}

/// An editable, undoable tree, storing its history as a DAG (Directed Acyclic Graph) of
/// **immutable** nodes.
///
/// Every node that has ever been created exists somewhere in the DAG, and when changes are
/// made, every ancestor of that node is cloned until the root is reached and that root becomes
/// the new 'current' root.  This is very similar to the way Git stores the commits, and every
/// edit is analogous to a Git rebase.  Moving back through the history is as simple as reading
/// a different root node from the history, and following its descendants through the DAG.
pub struct DAG<'arena> {
    /// The arena in which all the nodes will be stored
    arena: &'arena Arena<Json<'arena>>,
    /// A reference to the root node at every edit in the undo history, with the cursor path at
    /// that edit.  This always has length at least one.
    root_history: Vec<(&'arena Json<'arena>, Path)>,
    /// The index into `root_history` of the current edit.
    history_index: usize,
    current_cursor_path: Path,
}

impl<'arena> View for DAG<'arena> {
    type V = DagView<'arena>;

    closed spec fn view(&self) -> DagView<'arena> {
        DagView {
            history: self.root_history@.map_values(
                |e: (&'arena Json<'arena>, Path)| (*e.0, e.1@),
            ),
            index: self.history_index as nat,
            cursor: self.current_cursor_path@,
        }
    }
}

impl<'arena> DAG<'arena> {
    /// Builds a new `DAG`, given the tree it should contain
    pub fn new(arena: &'arena Arena<Json<'arena>>, root: &'arena Json<'arena>) -> (d: Self)
        ensures
            d@.history == seq![(*root, Seq::<usize>::empty())],
            d@.index == 0,
            d@.cursor == Seq::<usize>::empty(),
            d@.wf(),
    {
        let d = DAG {
            arena,
            root_history: vec![(root, Path::root())],
            history_index: 0,
            current_cursor_path: Path::root(),
        };
        assert(d@.history =~= seq![(*root, Seq::<usize>::empty())]);
        d
    }

    /* NAVIGATION METHODS */

    /// Returns a reference to the node that is currently the root of the AST.
    pub fn root(&self) -> (r: &'arena Json<'arena>)
        requires
            self@.wf(),
        ensures
            *r == self@.root(),
    {
        self.root_history[self.history_index].0
    }

    /// Returns the cursor node and its direct parent (if such a parent exists)
    pub fn cursor_and_parent(&self) -> (r: (&'arena Json<'arena>, Option<&'arena Json<'arena>>))
        requires
            self@.wf(),
        ensures
            *r.0 == self@.cursor_node(),
            self@.cursor.len() == 0 ==> r.1 is None,
            self@.cursor.len() > 0 ==> r.1 is Some && *r.1.unwrap() == self@.parent_node(),
    {
        self.current_cursor_path.cursor_and_parent(self.root())
    }

    /// Returns a reference to the node that is currently under the cursor.
    pub fn cursor(&self) -> (c: &'arena Json<'arena>)
        requires
            self@.wf(),
        ensures
            *c == self@.cursor_node(),
    {
        self.current_cursor_path.cursor(self.root())
    }

    /// Move the cursor in a given direction across the tree.  Returns [`Some`] error string if
    /// the movement is impossible, or [`None`] if it was made.
    pub fn move_cursor(&mut self, direction: Direction) -> (r: Option<String>)
        requires
            old(self)@.wf(),
        ensures
            move_post(old(self)@, final(self)@, direction, r),
    {
        let ghost v = self@;
        let (current_cursor, cursor_parent) = self.cursor_and_parent();
        proof {
            lemma_node_at_push(v.root(), v.cursor, 0);
            if v.cursor.len() > 0 {
                lemma_valid_prefix(v.root(), v.cursor, v.cursor.len() - 1);
                assert(v.cursor.take(v.cursor.len() - 1) =~= v.cursor.drop_last());
                assert(v.cursor =~= v.cursor.drop_last().push(v.cursor.last()));
                lemma_node_at_push(v.root(), v.cursor.drop_last(), v.cursor.last());
                assert(v.cursor.last() < spec_children(v.parent_node()).len());
            }
        }
        match direction {
            Direction::Down => {
                if current_cursor.num_children() == 0 {
                    Some(String::from_str("Cannot move down the tree if the cursor has no children."))
                } else {
                    self.current_cursor_path.push(0);
                    None
                }
            },
            Direction::Up => {
                if self.current_cursor_path.is_root() {
                    return Some(String::from_str("Cannot move to the parent of the root."));
                }
                self.current_cursor_path.pop();
                proof {
                    lemma_valid_prefix(v.root(), v.cursor, v.cursor.len() - 1);
                }
                None
            },
            Direction::Prev => {
                match self.current_cursor_path.last() {
                    Some(index) => {
                        if index == 0 {
                            Some(String::from_str("Cannot move before the first child of a node."))
                        } else {
                            self.current_cursor_path.pop();
                            self.current_cursor_path.push(index - 1);
                            proof {
                                assert(self@.cursor =~= v.cursor.drop_last().push((index - 1) as usize));
                                assert(self@.cursor =~= v.cursor.update(v.cursor.len() - 1, (index - 1) as usize));
                                lemma_node_at_push(v.root(), v.cursor.drop_last(), (index - 1) as usize);
                            }
                            None
                        }
                    },
                    None => Some(String::from_str("Cannot move to a sibling of the root.")),
                }
            },
            Direction::Next => {
                match self.current_cursor_path.last() {
                    Some(last_index) => {
                        // The only way for a node to not have a parent is if it's the root, and
                        // then the path would have no last index.
                        let n = cursor_parent.unwrap().num_children();
                        assert(last_index == v.cursor.last());
                        assert(last_index < n);
                        if last_index + 1 < n {
                            self.current_cursor_path.pop();
                            self.current_cursor_path.push(last_index + 1);
                            proof {
                                assert(self@.cursor =~= v.cursor.drop_last().push((last_index + 1) as usize));
                                assert(self@.cursor =~= v.cursor.update(v.cursor.len() - 1, (last_index + 1) as usize));
                                lemma_node_at_push(v.root(), v.cursor.drop_last(), (last_index + 1) as usize);
                            }
                            None
                        } else {
                            Some(String::from_str("Cannot move past the last sibling of a node."))
                        }
                    },
                    None => Some(String::from_str("Cannot move to a sibling of the root.")),
                }
            },
        }
    }

    /* HISTORY METHODS */

    /// Move one step back in the tree history
    pub fn undo(&mut self) -> (r: EditResult)
        requires
            old(self)@.wf(),
        ensures
            undo_post(old(self)@, final(self)@, r),
    {
        // Early return if there are no changes to undo
        if self.history_index == 0 {
            return Err(EditErr::NoChangesToUndo);
        }
        // Move the history index back by one to perform the undo
        self.history_index = self.history_index - 1;
        // Follow the behaviour of other text editors and update the location of the cursor
        // with its location in the snapshot we are going back to
        self.current_cursor_path = self.root_history[self.history_index].1.clone();
        assert(self@ =~= undone(old(self)@));
        Ok(EditSuccess::Undo)
    }

    /// Move one step forward in the tree history
    pub fn redo(&mut self) -> (r: EditResult)
        requires
            old(self)@.wf(),
        ensures
            redo_post(old(self)@, final(self)@, r),
    {
        // Early return if there are no changes to redo
        if self.history_index >= self.root_history.len() - 1 {
            return Err(EditErr::NoChangesToRedo);
        }
        // Move the history index forward by one to perform the redo
        self.history_index = self.history_index + 1;
        // Follow the behaviour of other text editors and update the location of the cursor
        // with its location in the snapshot we are going back to
        self.current_cursor_path = self.root_history[self.history_index].1.clone();
        Ok(EditSuccess::Redo)
    }

    /* EDITING METHODS */

    /// Replaces the current cursor with a node represented by `c`
    pub fn replace_cursor(&mut self, c: char) -> (r: EditResult)
        requires
            old(self)@.wf(),
            old(self)@.history.len() < usize::MAX,
        ensures
            replace_post(old(self)@, final(self)@, c, r),
    {
        let ghost v = self@;
        /* CHECK THE VALIDITY OF ARGUMENTS */
        let cursor = self.cursor();
        // Short circuit if the char to insert couldn't correspond to a valid child
        if !cursor.is_replace_char(c) {
            return Err(EditErr::CannotReplace(c));
        }
        /* PERFORM THE ACTION */
        let new_node = match cursor.from_char(c) {
            Some(n) => n,
            None => {
                return Err(EditErr::CharNotANode(c));
            },
        };
        // The nodes that will have to be cloned: the ancestors of the cursor, from the root down
        let mut nodes_to_clone = self.current_cursor_path.node_iter(self.root());
        // The last of them is the node under the cursor, which is replaced rather than cloned
        nodes_to_clone.pop();
        /* FINISH THE EDIT AND RETURN SUCCESS */
        let new_node_name = new_node.display_name();
        let ghost n = new_node;
        self.finish_edit(&nodes_to_clone, 0, new_node);
        proof {
            assert(v.cursor.take(v.cursor.len() as int) =~= v.cursor);
            lemma_committed_wf(v, self@, v.cursor, v.cursor);
            lemma_created_name(n, c);
        }
        Ok(EditSuccess::Replace { c, name: new_node_name })
    }

    /// Inserts the node represented by `c` as the last child of the selected node, and moves the
    /// cursor so that the new node is selected.
    pub fn insert_child(&mut self, c: char) -> (r: EditResult)
        requires
            old(self)@.wf(),
            old(self)@.history.len() < usize::MAX,
        ensures
            insert_child_post(old(self)@, final(self)@, c, r),
    {
        let ghost v = self@;
        /* CHECK THE VALIDITY OF ARGUMENTS */
        let cursor = self.cursor();
        // Short circuit if `c` couldn't be a valid child of the cursor
        if !cursor.is_insert_char(c) {
            return Err(EditErr::CannotInsertInto { c, parent_name: cursor.display_name() });
        }
        /* PERFORM THE ACTION */
        let created = match cursor.from_char(c) {
            Some(n) => n,
            None => {
                return Err(EditErr::CharNotANode(c));
            },
        };
        let new_node = self.arena.alloc_node(created);
        // The nodes that will have to be cloned: the ancestors of the cursor, from the root down
        let mut nodes_to_clone = self.current_cursor_path.node_iter(self.root());
        // Clone the node that currently is the cursor, and add the new child to the end of its
        // children.
        let mut cloned_cursor = nodes_to_clone.pop().unwrap().clone();
        let new_node_name = new_node.display_name();
        let n = cloned_cursor.num_children();
        let _ = cloned_cursor.insert_child(new_node, self.arena, n);
        /* FINISH THE EDIT AND RETURN SUCCESS */
        let ghost inserted = cloned_cursor;
        self.finish_edit(&nodes_to_clone, 0, cloned_cursor);
        // Select the new node
        self.current_cursor_path.push(n);
        proof {
            let w = self@;
            assert(v.cursor.take(v.cursor.len() as int) =~= v.cursor);
            lemma_node_at_push(w.root(), v.cursor, n);
            lemma_committed_wf(v, w, v.cursor, v.cursor);
            lemma_created_name(*new_node, c);
            if v.cursor_node() is Object {
                assert(spec_children(inserted)[n as int] == spec_children(inserted)[n as int]);
            }
        }
        Ok(EditSuccess::InsertChild { c, name: new_node_name })
    }

    /// Inserts the node represented by `c` next to the cursor, on the given `side` of it, and
    /// moves the cursor so that the new node is selected.
    pub fn insert_next_to_cursor(&mut self, c: char, side: Side) -> (r: EditResult)
        requires
            old(self)@.wf(),
            old(self)@.history.len() < usize::MAX,
        ensures
            insert_next_post(old(self)@, final(self)@, c, side, r),
    {
        let ghost v = self@;
        /* CHECK VALIDITY OF ARGUMENTS */
        // If the parent of the cursor doesn't exist, the cursor must be the root and we can't
        // insert a node next to the root.
        let parent = match self.cursor_and_parent().1 {
            None => {
                return Err(EditErr::AddSiblingToRoot);
            },
            Some(p) => p,
        };
        // Short circuit if not an insertable char
        if !parent.is_insert_char(c) {
            return Err(EditErr::CannotInsertInto { c, parent_name: parent.display_name() });
        }
        /* PERFORM THE INSERTION */
        proof {
            let p = v.cursor;
            lemma_valid_prefix(v.root(), p, p.len() - 1);
            assert(p.take(p.len() - 1) =~= p.drop_last());
            assert(p =~= p.drop_last().push(p.last()));
            lemma_node_at_push(v.root(), p.drop_last(), p.last());
        }
        // The nodes that will have to be cloned: the ancestors of the cursor, from the root down
        let mut nodes_to_clone = self.current_cursor_path.node_iter(self.root());
        // Pop the cursor, because it will be unchanged.  The only part of this that we need is
        // the cursor's index.
        nodes_to_clone.pop();
        let cursor_sibling_index = self.current_cursor_path.last().unwrap();
        let n_siblings = parent.num_children();
        assert(cursor_sibling_index < n_siblings);
        let insert_index = cursor_sibling_index + match side {
            Side::Prev => 0,
            Side::Next => 1,
        };
        // Clone the parent of the cursor, and add the new child to its children.
        let mut cloned_parent = nodes_to_clone.pop().unwrap().clone();
        let created = match cloned_parent.from_char(c) {
            Some(n) => n,
            None => {
                return Err(EditErr::CharNotANode(c));
            },
        };
        let new_child_node = self.arena.alloc_node(created);
        let new_node_name = new_child_node.display_name();
        let _ = cloned_parent.insert_child(new_child_node, self.arena, insert_index);
        /* FINISH THE EDIT AND RETURN SUCCESS */
        let ghost inserted = cloned_parent;
        proof {
            assert forall|k: int| 0 <= k < nodes_to_clone@.len() implies Some(
                *#[trigger] nodes_to_clone@[k],
            ) == node_at(v.root(), v.cursor.take(k)) by {}
        }
        self.finish_edit(&nodes_to_clone, 1, cloned_parent);
        // Select the new node
        self.current_cursor_path.pop();
        self.current_cursor_path.push(insert_index);
        proof {
            let w = self@;
            let p = v.cursor;
            assert(p.take(p.len() - 1) =~= p.drop_last());
            assert(w.cursor =~= p.drop_last().push(insert_index));
            lemma_node_at_push(w.root(), p.drop_last(), insert_index);
            lemma_node_at_push(w.root(), p.drop_last(), p.last());
            assert(p =~= p.drop_last().push(p.last()));
            lemma_committed_wf(v, w, p.drop_last(), p);
            lemma_created_name(*new_child_node, c);
        }
        Ok(EditSuccess::InsertNextToCursor { side, c, name: new_node_name })
    }

    /// Deletes the node under the cursor from its parent, which must not be a field (a field
    /// keeps both its children and reports an error).  The cursor then moves to the child that
    /// took its place, or to the new last child, or up to the parent if no child is left.
    pub fn delete_cursor(&mut self) -> (r: Result<(), DeleteError>)
        requires
            old(self)@.wf(),
            old(self)@.history.len() < usize::MAX,
            old(self)@.cursor.len() > 0,
        ensures
            delete_post(old(self)@, final(self)@, r),
    {
        let ghost v = self@;
        proof {
            let p = v.cursor;
            lemma_valid_prefix(v.root(), p, p.len() - 1);
            assert(p.take(p.len() - 1) =~= p.drop_last());
            assert(p =~= p.drop_last().push(p.last()));
            lemma_node_at_push(v.root(), p.drop_last(), p.last());
        }
        // The nodes that will have to be cloned: the ancestors of the cursor, from the root down
        let mut nodes_to_clone = self.current_cursor_path.node_iter(self.root());
        // Pop the cursor, because it will be removed.  The only part of this that we need is
        // its index.
        nodes_to_clone.pop();
        let cursor_sibling_index = self.current_cursor_path.last().unwrap();
        let mut cloned_parent = nodes_to_clone.pop().unwrap().clone();
        match cloned_parent.delete_child(cursor_sibling_index) {
            Err(e) => {
                return Err(e);
            },
            Ok(()) => {},
        }
        let ghost p = v.cursor.drop_last();
        proof {
            assert forall|k: int| 0 <= k < nodes_to_clone@.len() implies Some(
                *#[trigger] nodes_to_clone@[k],
            ) == node_at(v.root(), p.take(k)) by {
                assert(p.take(k) =~= v.cursor.take(k));
            }
        }
        let remaining = cloned_parent.num_children();
        let steps_above_cursor: usize = if remaining == 0 {
            // The only child of the node was removed, so the cursor moves up to it
            self.current_cursor_path.pop();
            0
        } else {
            // If the last child was deleted, the cursor moves back by one
            if cursor_sibling_index == remaining {
                self.current_cursor_path.pop();
                self.current_cursor_path.push(cursor_sibling_index - 1);
            }
            1
        };
        proof {
            let c = self@.cursor;
            assert(c.take(nodes_to_clone@.len() as int) =~= p);
            assert forall|k: int| 0 <= k < nodes_to_clone@.len() implies Some(
                *#[trigger] nodes_to_clone@[k],
            ) == node_at(self@.root(), self@.cursor.take(k)) by {
                assert(c.take(k) =~= p.take(k));
            }
            if remaining > 0 && cursor_sibling_index != remaining {
                assert(c =~= p.push(cursor_sibling_index));
            }
            if remaining > 0 {
                assert(c =~= p.push(c.last()));
                lemma_node_at_push(v.root(), p, c.last());
            }
        }
        // Finish the edit and commit the new tree to the arena
        self.finish_edit(&nodes_to_clone, steps_above_cursor, cloned_parent);
        proof {
            let w = self@;
            let c = w.cursor;
            assert(c.take(p.len() as int) =~= p);
            if remaining > 0 {
                assert(c =~= p.push(c.last()));
                lemma_node_at_push(w.root(), p, c.last());
            }
            lemma_committed_wf(v, w, p, c);
        }
        Ok(())
    }

    /* DISPLAY METHODS */

    /// Build the text representation of the current tree into the given [`String`]
    pub fn write_text(&self, string: &mut String, format: &JsonFormat)
        requires
            self@.wf(),
            INDENT_WIDTH * flat(self@.root(), *format == JsonFormat::Pretty).len() <= usize::MAX,
        ensures
            final(string)@ == old(string)@ + render(self@.root(), *format == JsonFormat::Pretty, 0),
    {
        self.root().write_text(string, format);
    }

    /// The text to save the current tree as: its textual representation, finished with a
    /// newline.  `None` when the tree has more display tokens than an indentation counter can
    /// count.
    pub fn file_text(&self, format: &JsonFormat) -> (s: Option<String>)
        requires
            self@.wf(),
        ensures
            s is Some <==> INDENT_WIDTH * flat(self@.root(), *format == JsonFormat::Pretty).len()
                <= usize::MAX,
            s matches Some(t) ==> ({
                let text = render(self@.root(), *format == JsonFormat::Pretty, 0);
                t@ == if text.len() > 0 && text.last() == '\n' {
                    text
                } else {
                    text.push('\n')
                }
            }),
    {
        let mut content = match self.root().try_to_text(format) {
            Some(t) => t,
            None => {
                return None;
            },
        };
        let ghost text = content@;
        // Force the file to finish with a newline
        match string_pop(&mut content) {
            Some(c) => {
                string_push(&mut content, c);
                assert(content@ =~= text);
                if c != '\n' {
                    string_push(&mut content, '\n');
                }
            },
            None => {
                string_push(&mut content, '\n');
            },
        }
        Some(content)
    }

    /// Whether the undo history has room for one more edit, as the editing methods require.
    pub fn has_history_room(&self) -> (b: bool)
        ensures
            b == (self@.history.len() < usize::MAX),
    {
        self.root_history.len() < usize::MAX
    }

    /// Whether [`DAG::delete_cursor`] can be called: the cursor is not the root.
    pub fn can_delete_cursor(&self) -> (b: bool)
        requires
            self@.wf(),
        ensures
            b == (self@.cursor.len() > 0),
    {
        let (_cursor, parent) = self.cursor_and_parent();
        parent.is_some()
    }

    /// Build and return a [`String`] of the current tree
    pub fn to_text(&self, format: &JsonFormat) -> (s: String)
        requires
            self@.wf(),
            INDENT_WIDTH * flat(self@.root(), *format == JsonFormat::Pretty).len() <= usize::MAX,
        ensures
            s@ == render(self@.root(), *format == JsonFormat::Pretty, 0),
    {
        self.root().to_text(format)
    }

    /// Finishes an edit: removes any redo history, and clones the ancestors of the node that
    /// changed, from `new_node` (which replaces the node `steps_above_cursor` levels above the
    /// cursor) up to a new root, which becomes the newest tree of the history.
    fn finish_edit(
        &mut self,
        nodes_to_clone: &Vec<&'arena Json<'arena>>,
        steps_above_cursor: usize,
        new_node: Json<'arena>,
    )
        requires
            old(self)@.wf(),
            old(self)@.history.len() < usize::MAX,
            steps_above_cursor <= old(self)@.cursor.len(),
            nodes_to_clone@.len() == old(self)@.cursor.len() - steps_above_cursor,
            forall|k: int|
                0 <= k < nodes_to_clone@.len() ==> Some(*#[trigger] nodes_to_clone@[k]) == node_at(
                    old(self)@.root(),
                    old(self)@.cursor.take(k),
                ),
        ensures
            committed(old(self)@, final(self)@, old(self)@.cursor.take(nodes_to_clone@.len() as int), old(self)@.cursor),
            node_at(final(self)@.root(), old(self)@.cursor.take(nodes_to_clone@.len() as int)) == Some(new_node),
            final(self)@.cursor == old(self)@.cursor,
            final(self)@.history.len() == old(self)@.index + 2,
    {
        let ghost v = self@;
        let ghost d = nodes_to_clone@.len() as int;
        let ghost old_root = v.root();
        // Remove future trees from the history vector so that the currently 'checked-out' tree
        // is the most recent tree in the history.
        while self.history_index < self.root_history.len() - 1
            invariant
                self.history_index == v.index,
                v.index < self.root_history@.len() <= v.history.len(),
                self@.history == v.history.take(self.root_history@.len() as int),
                self@.cursor == v.cursor,
            decreases self.root_history@.len(),
        {
            self.root_history.pop();
            assert(self@.history =~= v.history.take(self.root_history@.len() as int));
        }
        assert(self@.history =~= v.history.take(v.index + 1 as int));
        // Because AST nodes are immutable, we make changes to nodes by entirely cloning the path
        // down to the node under the cursor.  We do this starting at the node under the cursor
        // and work our way up parent by parent until we reach the root of the tree.  At that
        // point, this node becomes the root of the new tree.
        let mut node = self.arena.alloc_node(new_node);
        proof {
            lemma_valid_prefix(old_root, v.cursor, d);
            assert(v.cursor.subrange(d, d) =~= Seq::<usize>::empty());
        }
        let mut k: usize = nodes_to_clone.len();
        while k > 0
            invariant
                0 <= k <= d,
                d == nodes_to_clone@.len(),
                d <= v.cursor.len(),
                self.current_cursor_path@ == v.cursor,
                valid_path(old_root, v.cursor.take(d)),
                forall|m: int|
                    0 <= m < nodes_to_clone@.len() ==> Some(*#[trigger] nodes_to_clone@[m]) == node_at(
                        old_root,
                        v.cursor.take(m),
                    ),
                same_except(node_at(old_root, v.cursor.take(k as int))->Some_0, *node, v.cursor.subrange(k as int, d)),
                node_at(*node, v.cursor.subrange(k as int, d)) == Some(new_node),
                valid_path(old_root, v.cursor.take(k as int)),
            decreases k,
        {
            let idx = self.current_cursor_path.index(k - 1);
            let parent = nodes_to_clone[k - 1];
            proof {
                let pk = v.cursor.take(k - 1);
                assert(v.cursor.take(k as int) =~= pk.push(idx));
                lemma_node_at_push(old_root, pk, idx);
                lemma_valid_prefix(old_root, v.cursor.take(d), k - 1);
                assert(v.cursor.take(d).take(k - 1) =~= pk);
            }
            let mut cloned_node = parent.clone();
            cloned_node.set_child(idx, node);
            node = self.arena.alloc_node(cloned_node);
            proof {
                let sub = v.cursor.subrange(k - 1, d);
                assert(sub[0] == idx);
                assert(sub.drop_first() =~= v.cursor.subrange(k as int, d));
                assert(spec_children(*node)[idx as int] == spec_children(*parent).update(idx as int, spec_children(*node)[idx as int])[idx as int]);
            }
            k = k - 1;
        }
        proof {
            assert(v.cursor.subrange(0, d) =~= v.cursor.take(d));
            assert(v.cursor.take(0) =~= Seq::<usize>::empty());
        }
        // At this point, `node` contains a reference to the root of the new tree, so we just add
        // this to the history, along with the cursor path.
        let ghost before = self@.history;
        self.root_history.push((node, self.current_cursor_path.clone()));
        // Move the history index on by one so that we are pointing at the latest change
        self.history_index = self.root_history.len() - 1;
        assert(self@.history =~= before.push((*node, v.cursor)));
    }
}

} // verus!
