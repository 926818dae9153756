//! A utility datastructure to store a log of the commands executed recently, with the
//! keystrokes that made them.

use vstd::prelude::*;

use super::KeyEvent;

verus! {

/// A category grouping similar actions
#[derive(Debug, Copy, Clone, PartialEq, Eq, Hash, Structural)]
pub enum Category {
    /// An action that moves the cursor
    Move,
    /// Either an undo or a redo
    History,
    /// An action that inserts extra nodes into the tree
    Insert,
    /// An action that replaces some nodes in the tree
    Replace,
    /// An action that causes nodes to be deleted from the tree
    Delete,
    /// The action of the keystrokes is that Sapling should quit
    Quit,
    /// An action that handles reading and writing from disk
    IO,
    /// The keystrokes did not correspond to a well-defined action
    Undefined,
}

/// One entry in the log.  This usually represents a single command, but could represent an
/// accumulation of many identical commands that are executed consecutively.
pub struct Entry {
    count: usize,
    keystrokes: Vec<KeyEvent>,
    description: String,
    category: Category,
}

/// The content of an entry: how many times it ran, its keystrokes, its description and its
/// category.
pub type EntryView = (nat, Seq<KeyEvent>, Seq<char>, Category);

impl Entry {
    pub closed spec fn view(&self) -> EntryView {
        (self.count as nat, self.keystrokes@, self.description@, self.category)
    }

    /// How many consecutive times this entry's command was executed.
    pub fn count(&self) -> (n: usize)
        ensures
            n == self.view().0,
    {
        self.count
    }

    /// The keystrokes of this entry's command.
    pub fn keystrokes(&self) -> (k: &Vec<KeyEvent>)
        ensures
            k@ == self.view().1,
    {
        &self.keystrokes
    }

    /// The description of this entry's command.
    pub fn description(&self) -> (d: &str)
        ensures
            d@ == self.view().2,
    {
        self.description.as_str()
    }

    /// The category of this entry's command.
    pub fn category(&self) -> (c: Category)
        ensures
            c == self.view().3,
    {
        self.category
    }
}

/// A log of which commands have been executed recently, with their keystrokes.
pub struct KeyStrokeLog {
    /// A list of the commands that have been run
    keystrokes: Vec<Entry>,
    /// The maximum number of entries that should be kept at once
    max_entries: usize,
    /// The keystrokes that will be included in the next log entry
    unlogged_keystrokes: Vec<KeyEvent>,
}

impl KeyStrokeLog {
    /// The entries of the log, oldest first.
    pub closed spec fn entries(&self) -> Seq<EntryView> {
        self.keystrokes@.map_values(|e: Entry| e.view())
    }

    /// The maximum number of entries.
    pub closed spec fn max(&self) -> nat {
        self.max_entries as nat
    }

    /// The keystrokes that the next entry will hold.
    pub closed spec fn unlogged(&self) -> Seq<KeyEvent> {
        self.unlogged_keystrokes@
    }

    /// Create a new (empty) keystroke log
    pub fn new(max_entries: usize) -> (l: KeyStrokeLog)
        ensures
            l.entries().len() == 0,
            l.max() == max_entries,
            l.unlogged().len() == 0,
    {
        let l = KeyStrokeLog { keystrokes: Vec::new(), max_entries, unlogged_keystrokes: Vec::new() };
        assert(l.entries() =~= Seq::<EntryView>::empty());
        l
    }

    /// The entries of the log, oldest first.
    pub fn log_entries(&self) -> (es: &Vec<Entry>)
        ensures
            es@.map_values(|e: Entry| e.view()) == self.entries(),
    {
        &self.keystrokes
    }

    /// Sets and enforces the max entry limit
    pub fn set_max_entries(&mut self, max_entries: usize)
        ensures
            final(self).max() == max_entries,
            final(self).unlogged() == old(self).unlogged(),
            final(self).entries() == if old(self).entries().len() > max_entries {
                old(self).entries().skip(old(self).entries().len() - max_entries)
            } else {
                old(self).entries()
            },
    {
        self.max_entries = max_entries;
        self.enforce_entry_limit();
    }

    /// Repeatedly remove the oldest entries until the entry limit is satisfied
    fn enforce_entry_limit(&mut self)
        ensures
            final(self).max() == old(self).max(),
            final(self).unlogged() == old(self).unlogged(),
            final(self).entries() == if old(self).entries().len() > old(self).max() {
                old(self).entries().skip(old(self).entries().len() - old(self).max())
            } else {
                old(self).entries()
            },
    {
        let ghost start = self.entries();
        while self.keystrokes.len() > self.max_entries
            invariant
                self.max_entries == old(self).max(),
                self.unlogged_keystrokes@ == old(self).unlogged(),
                start == old(self).entries(),
                self.keystrokes@.len() >= self.max_entries || start.len() <= self.max_entries,
                start.len() >= self.keystrokes@.len(),
                start.len() <= self.max_entries ==> self.keystrokes@.len() == start.len(),
                self.entries() == start.skip(start.len() - self.keystrokes@.len()),
            decreases self.keystrokes@.len(),
        {
            let ghost before = self.entries();
            self.keystrokes.remove(0);
            assert(self.entries() =~= before.drop_first());
            assert(self.entries() =~= start.skip(start.len() - self.keystrokes@.len()));
        }
        assert(start.skip(0) =~= start);
    }

    /// Log a new key that should be added to the next log entry.
    pub fn push_key(&mut self, key: KeyEvent)
        ensures
            final(self).entries() == old(self).entries(),
            final(self).max() == old(self).max(),
            final(self).unlogged() == old(self).unlogged().push(key),
    {
        self.unlogged_keystrokes.push(key);
    }

    /// Creates a new entry in the log, for the keys already [`push_key`](Self::push_key)ed.  If
    /// they are the keys of the newest entry, that entry's count goes up instead.
    pub fn log_entry(&mut self, description: String, category: Category)
        requires
            old(self).entries().len() > 0 && old(self).entries().last().1 == old(self).unlogged()
                ==> old(self).entries().last().0 < usize::MAX,
        ensures
            final(self).max() == old(self).max(),
            final(self).unlogged().len() == 0,
            old(self).entries().len() > 0 && old(self).entries().last().1 == old(self).unlogged()
                ==> final(self).entries() == old(self).entries().update(
                old(self).entries().len() - 1,
                (
                    old(self).entries().last().0 + 1,
                    old(self).entries().last().1,
                    old(self).entries().last().2,
                    old(self).entries().last().3,
                ),
            ),
            !(old(self).entries().len() > 0 && old(self).entries().last().1 == old(self).unlogged())
                ==> {
                let pushed = old(self).entries().push((1, old(self).unlogged(), description@, category));
                final(self).entries() == if pushed.len() > old(self).max() {
                    pushed.skip(pushed.len() - old(self).max())
                } else {
                    pushed
                }
            },
    {
        let n = self.keystrokes.len();
        // If the keystrokes are identical to the last log entry, increment that counter by one
        let same = n > 0 && keys_equal(&self.unlogged_keystrokes, &self.keystrokes[n - 1].keystrokes);
        if same {
            let ghost before = self.entries();
            let mut last = self.keystrokes.pop().unwrap();
            last.count = last.count + 1;
            self.keystrokes.push(last);
            assert(self.entries() =~= before.update(before.len() - 1, (before.last().0 + 1, before.last().1, before.last().2, before.last().3)));
        } else {
            let ghost before = self.entries();
            let keystrokes = self.unlogged_keystrokes.clone();
            self.keystrokes.push(Entry { count: 1, keystrokes, description, category });
            assert(self.entries() =~= before.push((1, old(self).unlogged(), description@, category)));
            // Since we added an item, we should enforce the entry limit
            self.enforce_entry_limit();
        }
        self.unlogged_keystrokes.clear();
    }
}

/// Whether two sequences of keys are the same.
fn keys_equal(a: &Vec<KeyEvent>, b: &Vec<KeyEvent>) -> (r: bool)
    ensures
        r == (a@ == b@),
{
    if a.len() != b.len() {
        return false;
    }
    let mut i: usize = 0;
    while i < a.len()
        invariant
            i <= a@.len(),
            a@.len() == b@.len(),
            forall|j: int| 0 <= j < i ==> a@[j] == b@[j],
        decreases a@.len() - i,
    {
        if a[i] != b[i] {
            return false;
        }
        i = i + 1;
    }
    assert(a@ =~= b@);
    true
}

} // verus!
