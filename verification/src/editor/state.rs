//! The state machine of Sapling's editor modes.

use vstd::prelude::*;

use super::keystroke_log::Category;
use super::normal_mode::{self, Action, Insertable, KeyMap};
use super::KeyEvent;
use crate::ast::json::spec_children;
use crate::ast::DeleteError;
use crate::editable_tree::{
    delete_post, insert_child_post, insert_next_post, move_post, redo_post, replace_post,
    undo_post, EditResult, Side, DAG,
};

verus! {

/// The state that Sapling enters to quit the mainloop and exit
#[derive(Debug, Copy, Clone, PartialEq, Eq, Structural)]
pub struct Quit;

/// A state of Sapling's state machine.
///
/// The current states are:
/// - [`Quit`]
/// - [`normal_mode::State`]
#[derive(Debug, Clone)]
pub enum State {
    Normal(normal_mode::State),
    Quit(Quit),
}

/// What the editor must do outside the state machine after a keystroke.
#[derive(Debug, Copy, Clone, PartialEq, Eq, Structural)]
pub enum Effect {
    /// Nothing
    Nothing,
    /// Write the current tree to the file being edited
    Write,
    /// Perform `action` on the tree, with the given count
    Edit { count: usize, action: Action },
}

impl State {
    /// The state Sapling starts in: normal mode, with no keystrokes typed.
    pub fn new() -> (s: State)
        ensures
            s matches State::Normal(n) && n.buffer() == Seq::<KeyEvent>::empty(),
    {
        State::Normal(normal_mode::State::default())
    }

    /// Consume a keystroke, returning the state after this transition, the entry to log (if
    /// any), and what the editor must do outside the state machine.  The quit state stays as
    /// it is.
    pub fn transition(self, key: KeyEvent, keymap: &KeyMap) -> (r: (
        State,
        Option<(String, Category)>,
        Effect,
    ))
        requires
            self matches State::Normal(n) ==> normal_mode::counts_fit(
                *keymap,
                normal_mode::codes(n.buffer().push(key)),
            ),
        ensures
            self is Quit ==> r.0 is Quit && r.1 is None && r.2 == Effect::Nothing,
            self matches State::Normal(n) ==> ({
                let (next, entry, effect) = normal_mode::spec_transition(*keymap, n.buffer(), key);
                &&& match next {
                    None => r.0 is Quit,
                    Some(b) => r.0 matches State::Normal(s) && s.buffer() == b,
                }
                &&& match entry {
                    None => r.1 is None,
                    Some((text, category)) => r.1 matches Some((t, c)) && t@ == text && c
                        == category,
                }
                &&& r.2 == effect
            }),
    {
        match self {
            State::Normal(n) => n.transition(key, keymap),
            State::Quit(q) => (State::Quit(q), None, Effect::Nothing),
        }
    }

    /// Return the keystroke buffer that should be displayed in the bottom right corner of the
    /// screen.  The quit state has none.
    pub fn keystroke_buffer(&self) -> (s: String)
        ensures
            self matches State::Normal(n) ==> s@ == crate::base::key_display::keystrokes_text(
                n.buffer(),
            ),
            self is Quit ==> s@.len() == 0,
    {
        match self {
            State::Normal(n) => n.keystroke_buffer(),
            State::Quit(_) => String::new(),
        }
    }

    /// Returns `true` if Sapling should quit.
    pub fn is_quit(&self) -> (b: bool)
        ensures
            b == self is Quit,
    {
        match self {
            State::Normal(_) => false,
            State::Quit(_) => true,
        }
    }
}

/// What performing an action on the tree gave.
#[derive(Debug, PartialEq, Eq)]
pub enum Performed {
    /// An edit or a step through the history, and its result
    Edit(EditResult),
    /// A cursor move: why it could not be made, if it could not
    Move(Option<String>),
    /// A deletion, and its result
    Delete(Result<(), DeleteError>),
    /// The action does not act on the tree (quitting or writing)
    Nothing,
}

/// Whether performing `action` makes a new tree.
pub open spec fn makes_edit(action: Action) -> bool {
    ||| action is Replace
    ||| action is InsertChild
    ||| action is InsertBefore
    ||| action is InsertAfter
    ||| action is Delete
}

/// Performs `action` once on the tree: a history step, a cursor move or an edit, each with the
/// node its char makes; quitting and writing leave the tree as it is.
pub fn perform<'arena>(tree: &mut DAG<'arena>, action: Action) -> (r: Performed)
    requires
        old(tree)@.wf(),
        makes_edit(action) ==> old(tree)@.history.len() < usize::MAX,
        action is Delete ==> old(tree)@.cursor.len() > 0 && (old(tree)@.parent_node() is Field
            || spec_children(old(tree)@.parent_node()).len() == 1),
    ensures
        match action {
            Action::Undo => r matches Performed::Edit(e) && undo_post(old(tree)@, final(tree)@, e),
            Action::Redo => r matches Performed::Edit(e) && redo_post(old(tree)@, final(tree)@, e),
            Action::MoveCursor(d) => r matches Performed::Move(m) && move_post(
                old(tree)@,
                final(tree)@,
                d,
                m,
            ),
            Action::Replace(Insertable::CountedNode(_, c)) => r matches Performed::Edit(e)
                && replace_post(old(tree)@, final(tree)@, c, e),
            Action::InsertChild(Insertable::CountedNode(_, c)) => r matches Performed::Edit(e)
                && insert_child_post(old(tree)@, final(tree)@, c, e),
            Action::InsertBefore(Insertable::CountedNode(_, c)) => r matches Performed::Edit(e)
                && insert_next_post(old(tree)@, final(tree)@, c, Side::Prev, e),
            Action::InsertAfter(Insertable::CountedNode(_, c)) => r matches Performed::Edit(e)
                && insert_next_post(old(tree)@, final(tree)@, c, Side::Next, e),
            Action::Delete => r matches Performed::Delete(d) && delete_post(
                old(tree)@,
                final(tree)@,
                d,
            ),
            Action::Quit | Action::Write => r == Performed::Nothing && final(tree)@ == old(tree)@,
        },
{
    match action {
        Action::Undo => Performed::Edit(tree.undo()),
        Action::Redo => Performed::Edit(tree.redo()),
        Action::MoveCursor(direction) => Performed::Move(tree.move_cursor(direction)),
        Action::Replace(Insertable::CountedNode(_, c)) => Performed::Edit(tree.replace_cursor(c)),
        Action::InsertChild(Insertable::CountedNode(_, c)) => Performed::Edit(tree.insert_child(c)),
        Action::InsertBefore(Insertable::CountedNode(_, c)) => Performed::Edit(
            tree.insert_next_to_cursor(c, Side::Prev),
        ),
        Action::InsertAfter(Insertable::CountedNode(_, c)) => Performed::Edit(
            tree.insert_next_to_cursor(c, Side::Next),
        ),
        Action::Delete => Performed::Delete(tree.delete_cursor()),
        Action::Quit | Action::Write => Performed::Nothing,
    }
}

} // verus!
