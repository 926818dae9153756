//! The command language of 'normal-mode', similar to that of Vim

use vstd::prelude::*;
use vstd::string::*;

use super::keystroke_log::Category;
use super::state::{self, Effect};
use super::{Key, KeyEvent};
use crate::base::key_display::{keystrokes_text, keystrokes_to_string};
use crate::base::{string_push, Direction};

verus! {

/// The possible keystroke typed by user without any parameters.  Each `CmdType` can be mapped
/// to an individual key.
#[derive(Debug, Copy, Clone, PartialEq, Eq, Hash, Structural)]
pub enum CmdType {
    /// Quit Sapling
    Quit,
    /// Write current buffer to disk
    Write,
    /// Replace the selected node, expects an argument
    Replace,
    /// Insert a new node as the last child of the cursor, expects an argument
    InsertChild,
    /// Insert a new node before the cursor, expects an argument
    InsertBefore,
    /// Insert a new node after the cursor, expects an argument
    InsertAfter,
    /// Delete the cursor
    Delete,
    /// Move cursor in given direction.  The direction is part of the keystroke, since movements
    /// in all 4 directions are mapped to single characters.
    MoveCursor(Direction),
    /// Undo the last change
    Undo,
    /// Redo a change
    Redo,
}

impl CmdType {
    /// Returns a lower-case summary string of the given keystroke
    pub fn summary_string(&self) -> (s: &'static str)
        ensures
            s@ == match *self {
                CmdType::Quit => "quit"@,
                CmdType::Write => "write"@,
                CmdType::Replace => "replace"@,
                CmdType::InsertChild => "insert child"@,
                CmdType::InsertBefore => "insert before"@,
                CmdType::InsertAfter => "insert after"@,
                CmdType::Delete => "delete"@,
                CmdType::MoveCursor(Direction::Down) => "move to child"@,
                CmdType::MoveCursor(Direction::Up) => "move to parent"@,
                CmdType::MoveCursor(Direction::Prev) => "move to previous sibling"@,
                CmdType::MoveCursor(Direction::Next) => "move to next sibling"@,
                CmdType::Undo => "undo"@,
                CmdType::Redo => "redo"@,
            },
    {
        match self {
            CmdType::Quit => "quit",
            CmdType::Write => "write",
            CmdType::Replace => "replace",
            CmdType::InsertChild => "insert child",
            CmdType::InsertBefore => "insert before",
            CmdType::InsertAfter => "insert after",
            CmdType::Delete => "delete",
            CmdType::MoveCursor(Direction::Down) => "move to child",
            CmdType::MoveCursor(Direction::Up) => "move to parent",
            CmdType::MoveCursor(Direction::Prev) => "move to previous sibling",
            CmdType::MoveCursor(Direction::Next) => "move to next sibling",
            CmdType::Undo => "undo",
            CmdType::Redo => "redo",
        }
    }
}

/// A node to insert, as typed: a count, then the char that represents the node.
#[derive(Debug, Copy, Clone, PartialEq, Eq, Hash, Structural)]
pub enum Insertable {
    CountedNode(usize, char),
}

/// The [`Action`] generated by a single normal-mode 'command'.
#[derive(Debug, Copy, Clone, PartialEq, Eq, Hash, Structural)]
pub enum Action {
    /// Replace the selected node with a node represented by some [`char`]
    Replace(Insertable),
    /// Insert a new node (given by some [`char`]) as the last child of the selected node
    InsertChild(Insertable),
    /// Insert a new node (given by some [`char`]) before the cursor
    InsertBefore(Insertable),
    /// Insert a new node (given by some [`char`]) after the cursor
    InsertAfter(Insertable),
    /// Remove the node under the cursor
    Delete,
    /// Move the node in a given direction
    MoveCursor(Direction),
    /// Undo the last change
    Undo,
    /// Redo a change
    Redo,
    /// Quit Sapling
    Quit,
    /// Write current buffer to disk
    Write,
}

/// The description of an action that places the node typed as `i`: `prefix`, the node's char in
/// single quotes, then `suffix`.
pub open spec fn quoted_char_desc(prefix: Seq<char>, i: Insertable, suffix: Seq<char>) -> Seq<char> {
    match i {
        Insertable::CountedNode(_, c) => prefix + seq!['\''] + seq![c] + seq!['\''] + suffix,
    }
}

/// The description of an action.
pub open spec fn spec_description(a: Action) -> Seq<char> {
    match a {
        Action::Replace(i) => quoted_char_desc("replace cursor with "@, i, ""@),
        Action::InsertChild(i) => quoted_char_desc("insert "@, i, " as last child"@),
        Action::InsertBefore(i) => quoted_char_desc("insert "@, i, " before cursor"@),
        Action::InsertAfter(i) => quoted_char_desc("insert "@, i, " after cursor"@),
        Action::Delete => "delete cursor"@,
        Action::MoveCursor(Direction::Down) => "move to child"@,
        Action::MoveCursor(Direction::Up) => "move to parent"@,
        Action::MoveCursor(Direction::Prev) => "move to previous sibling"@,
        Action::MoveCursor(Direction::Next) => "move to next sibling"@,
        Action::Undo => "undo a change"@,
        Action::Redo => "redo a change"@,
        Action::Quit => "quit Sapling"@,
        Action::Write => "write to disk"@,
    }
}

/// The category of an action.
pub open spec fn spec_category(a: Action) -> Category {
    match a {
        Action::Replace(_) => Category::Replace,
        Action::InsertChild(_) | Action::InsertBefore(_) | Action::InsertAfter(_) => Category::Insert,
        Action::Delete => Category::Delete,
        Action::MoveCursor(_) => Category::Move,
        Action::Undo | Action::Redo => Category::History,
        Action::Quit => Category::Quit,
        Action::Write => Category::IO,
    }
}

/// Builds `prefix'c'suffix` for the char `c` of `i`.
fn describe_with_char(prefix: &str, i: &Insertable, suffix: &str) -> (s: String)
    ensures
        s@ == quoted_char_desc(prefix@, *i, suffix@),
{
    let Insertable::CountedNode(_, c) = i;
    let mut s = String::from_str(prefix);
    string_push(&mut s, '\'');
    string_push(&mut s, *c);
    string_push(&mut s, '\'');
    s.append(suffix);
    assert(s@ =~= quoted_char_desc(prefix@, *i, suffix@));
    s
}

impl Action {
    /// Returns a lower-case summary of the given action.
    pub fn description(&self) -> (s: String)
        ensures
            s@ == spec_description(*self),
    {
        match self {
            Action::Replace(c) => describe_with_char("replace cursor with ", c, ""),
            Action::InsertChild(c) => describe_with_char("insert ", c, " as last child"),
            Action::InsertBefore(c) => describe_with_char("insert ", c, " before cursor"),
            Action::InsertAfter(c) => describe_with_char("insert ", c, " after cursor"),
            Action::Delete => String::from_str("delete cursor"),
            Action::MoveCursor(Direction::Down) => String::from_str("move to child"),
            Action::MoveCursor(Direction::Up) => String::from_str("move to parent"),
            Action::MoveCursor(Direction::Prev) => String::from_str("move to previous sibling"),
            Action::MoveCursor(Direction::Next) => String::from_str("move to next sibling"),
            Action::Undo => String::from_str("undo a change"),
            Action::Redo => String::from_str("redo a change"),
            Action::Quit => String::from_str("quit Sapling"),
            Action::Write => String::from_str("write to disk"),
        }
    }

    /// Returns the [`Category`] of this `Action`
    pub fn category(&self) -> (c: Category)
        ensures
            c == spec_category(*self),
    {
        match self {
            Action::Replace(_) => Category::Replace,
            Action::InsertChild(_) | Action::InsertBefore(_) | Action::InsertAfter(_) => {
                Category::Insert
            },
            Action::Delete => Category::Delete,
            Action::MoveCursor(_) => Category::Move,
            Action::Undo | Action::Redo => Category::History,
            Action::Quit => Category::Quit,
            Action::Write => Category::IO,
        }
    }
}

/// The possible ways a parsing operation could fail
#[derive(Debug, Copy, Clone, PartialEq, Eq, Structural)]
pub enum ParseErr {
    Invalid,
    Incomplete,
}

/// A mapping from keys to the commands they start.
#[derive(Debug, Clone)]
pub struct KeyMap {
    entries: Vec<(Key, CmdType)>,
}

/// The command that `key` is mapped to by the first entry for it.
pub open spec fn lookup(entries: Seq<(Key, CmdType)>, key: Key) -> Option<CmdType>
    decreases entries.len(),
{
    if entries.len() == 0 {
        None
    } else if entries[0].0 == key {
        Some(entries[0].1)
    } else {
        lookup(entries.drop_first(), key)
    }
}

impl KeyMap {
    /// The entries of the map, in the order they were added.
    pub closed spec fn spec_entries(&self) -> Seq<(Key, CmdType)> {
        self.entries@
    }

    /// The command that `key` is mapped to.
    pub open spec fn spec_get(&self, key: Key) -> Option<CmdType> {
        lookup(self.spec_entries(), key)
    }

    /// A map with no keys.
    pub fn new() -> (m: KeyMap)
        ensures
            m.spec_entries().len() == 0,
    {
        KeyMap { entries: Vec::new() }
    }

    /// Maps `key` to `cmd`, replacing what it was mapped to.
    pub fn insert(&mut self, key: Key, cmd: CmdType)
        ensures
            final(self).spec_get(key) == Some(cmd),
            forall|k: Key| k != key ==> #[trigger] final(self).spec_get(k) == old(self).spec_get(k),
    {
        let ghost old_entries = self.entries@;
        self.entries.insert(0, (key, cmd));
        proof {
            assert(self.entries@.drop_first() =~= old_entries);
        }
    }

    /// The command that `key` is mapped to, if any.
    pub fn get(&self, key: Key) -> (c: Option<CmdType>)
        ensures
            c == self.spec_get(key),
    {
        let mut i: usize = 0;
        assert(self.entries@.skip(0) =~= self.entries@);
        while i < self.entries.len()
            invariant
                i <= self.entries@.len(),
                lookup(self.entries@, key) == lookup(self.entries@.skip(i as int), key),
            decreases self.entries@.len() - i,
        {
            proof {
                assert(self.entries@.skip(i as int).drop_first() =~= self.entries@.skip(i + 1));
            }
            if self.entries[i].0 == key {
                return Some(self.entries[i].1);
            }
            i = i + 1;
        }
        None
    }
}

/// Generates a 'canonical' [`KeyMap`].  These keybindings will be very similar to those of Vim.
pub fn default_keymap() -> (m: KeyMap)
    ensures
        m.spec_get(Key::Char('q')) == Some(CmdType::Quit),
        m.spec_get(Key::Char('w')) == Some(CmdType::Write),
        m.spec_get(Key::Char('i')) == Some(CmdType::InsertBefore),
        m.spec_get(Key::Char('a')) == Some(CmdType::InsertAfter),
        m.spec_get(Key::Char('o')) == Some(CmdType::InsertChild),
        m.spec_get(Key::Char('r')) == Some(CmdType::Replace),
        m.spec_get(Key::Char('x')) == Some(CmdType::Delete),
        m.spec_get(Key::Char('c')) == Some(CmdType::MoveCursor(Direction::Down)),
        m.spec_get(Key::Char('p')) == Some(CmdType::MoveCursor(Direction::Up)),
        m.spec_get(Key::Char('h')) == Some(CmdType::MoveCursor(Direction::Prev)),
        m.spec_get(Key::Char('j')) == Some(CmdType::MoveCursor(Direction::Next)),
        m.spec_get(Key::Char('k')) == Some(CmdType::MoveCursor(Direction::Prev)),
        m.spec_get(Key::Char('l')) == Some(CmdType::MoveCursor(Direction::Next)),
        m.spec_get(Key::Char('u')) == Some(CmdType::Undo),
        m.spec_get(Key::Char('R')) == Some(CmdType::Redo),
        forall|k: Key|
            !(k == Key::Char('q') || k == Key::Char('w') || k == Key::Char('i') || k == Key::Char(
                'a',
            ) || k == Key::Char('o') || k == Key::Char('r') || k == Key::Char('x') || k
                == Key::Char('c') || k == Key::Char('p') || k == Key::Char('h') || k == Key::Char(
                'j',
            ) || k == Key::Char('k') || k == Key::Char('l') || k == Key::Char('u') || k
                == Key::Char('R')) ==> #[trigger] m.spec_get(k) is None,
{
    let mut m = KeyMap::new();
    m.insert(Key::Char('q'), CmdType::Quit);
    m.insert(Key::Char('w'), CmdType::Write);
    m.insert(Key::Char('i'), CmdType::InsertBefore);
    m.insert(Key::Char('a'), CmdType::InsertAfter);
    m.insert(Key::Char('o'), CmdType::InsertChild);
    m.insert(Key::Char('r'), CmdType::Replace);
    m.insert(Key::Char('x'), CmdType::Delete);
    m.insert(Key::Char('c'), CmdType::MoveCursor(Direction::Down));
    m.insert(Key::Char('p'), CmdType::MoveCursor(Direction::Up));
    m.insert(Key::Char('h'), CmdType::MoveCursor(Direction::Prev));
    m.insert(Key::Char('j'), CmdType::MoveCursor(Direction::Next));
    m.insert(Key::Char('k'), CmdType::MoveCursor(Direction::Prev));
    m.insert(Key::Char('l'), CmdType::MoveCursor(Direction::Next));
    m.insert(Key::Char('u'), CmdType::Undo);
    m.insert(Key::Char('R'), CmdType::Redo);
    m
}

/// The value of a key as a decimal digit, if it types one.
pub open spec fn digit_of(k: Key) -> Option<nat> {
    match k {
        Key::Char(c) => if '0' <= c <= '9' {
            Some((c as nat - '0' as nat) as nat)
        } else {
            None
        },
        _ => None,
    }
}

/// The number of digit keys at the front of `keys`.
pub open spec fn count_len(keys: Seq<Key>) -> nat
    decreases keys.len(),
{
    if keys.len() > 0 && digit_of(keys[0]) is Some {
        1 + count_len(keys.drop_first())
    } else {
        0
    }
}

/// The number written by the first `n` keys of `keys`, which are digits.
pub open spec fn digits_value(keys: Seq<Key>, n: nat) -> nat
    decreases n,
{
    if n == 0 {
        0
    } else {
        digits_value(keys, (n - 1) as nat) * 10 + digit_of(keys[n - 1])->Some_0
    }
}

/// The count at the front of `keys`: the number its leading digits write, or `1` if it starts
/// with no digit.
pub open spec fn count_of(keys: Seq<Key>) -> nat {
    if count_len(keys) == 0 {
        1
    } else {
        digits_value(keys, count_len(keys))
    }
}

/// The insertable at the front of `keys`: a count, then a key that types a char.
pub open spec fn spec_parse_insertable(keys: Seq<Key>) -> Result<(Insertable, nat), ParseErr> {
    let n = count_len(keys);
    if n >= keys.len() {
        Err(ParseErr::Incomplete)
    } else {
        match keys[n as int] {
            Key::Char(c) => Ok((Insertable::CountedNode(count_of(keys) as usize, c), n + 1)),
            _ => Err(ParseErr::Invalid),
        }
    }
}

/// The command that `keys` start with: a count, a key of the keymap, then an insertable for
/// the commands that place a node.
pub open spec fn spec_parse_command(keymap: KeyMap, keys: Seq<Key>) -> Result<(usize, Action), ParseErr> {
    let n = count_len(keys);
    if n >= keys.len() {
        Err(ParseErr::Incomplete)
    } else {
        let count = count_of(keys) as usize;
        let rest = keys.skip(n + 1 as int);
        match keymap.spec_get(keys[n as int]) {
            None => Err(ParseErr::Invalid),
            Some(cmd) => match cmd {
                CmdType::InsertChild => match spec_parse_insertable(rest) {
                    Ok((i, _)) => Ok((count, Action::InsertChild(i))),
                    Err(e) => Err(e),
                },
                CmdType::InsertBefore => match spec_parse_insertable(rest) {
                    Ok((i, _)) => Ok((count, Action::InsertBefore(i))),
                    Err(e) => Err(e),
                },
                CmdType::InsertAfter => match spec_parse_insertable(rest) {
                    Ok((i, _)) => Ok((count, Action::InsertAfter(i))),
                    Err(e) => Err(e),
                },
                CmdType::Replace => match spec_parse_insertable(rest) {
                    Ok((i, _)) => Ok((count, Action::Replace(i))),
                    Err(e) => Err(e),
                },
                CmdType::Delete => Ok((count, Action::Delete)),
                CmdType::MoveCursor(d) => Ok((count, Action::MoveCursor(d))),
                CmdType::Undo => Ok((count, Action::Undo)),
                CmdType::Redo => Ok((count, Action::Redo)),
                CmdType::Quit => Ok((count, Action::Quit)),
                CmdType::Write => Ok((count, Action::Write)),
            },
        }
    }
}

/// Each command is parsed into the action of the same name, and only from its key: where the
/// key after the count is mapped to a command that takes no argument, the command parses, with
/// the count, into the action of that command, and an action of that kind comes from no other
/// key.  A command that places a node gives the placing action of the same name, with the
/// insertable that follows.
pub proof fn law_commands_give_their_actions(keymap: KeyMap, keys: Seq<Key>, d: Direction, i: Insertable)
    requires
        count_len(keys) < keys.len(),
    ensures
        ({
            let n = count_len(keys) as int;
            let cmd = keymap.spec_get(keys[n]);
            let count = count_of(keys) as usize;
            let r = spec_parse_command(keymap, keys);
            let rest = keys.skip(n + 1);
            &&& cmd == Some(CmdType::Undo) <==> r == Ok::<(usize, Action), ParseErr>((count, Action::Undo))
            &&& cmd == Some(CmdType::Redo) <==> r == Ok::<(usize, Action), ParseErr>((count, Action::Redo))
            &&& cmd == Some(CmdType::Quit) <==> r == Ok::<(usize, Action), ParseErr>((count, Action::Quit))
            &&& cmd == Some(CmdType::Write) <==> r == Ok::<(usize, Action), ParseErr>((count, Action::Write))
            &&& cmd == Some(CmdType::Delete) <==> r == Ok::<(usize, Action), ParseErr>((count, Action::Delete))
            &&& cmd == Some(CmdType::MoveCursor(d)) <==> r == Ok::<(usize, Action), ParseErr>(
                (count, Action::MoveCursor(d)),
            )
            &&& (cmd == Some(CmdType::InsertChild) && spec_parse_insertable(rest) is Ok && spec_parse_insertable(rest)->Ok_0.0 == i)
                    <==> r == Ok::<(usize, Action), ParseErr>((count, Action::InsertChild(i)))
            &&& (cmd == Some(CmdType::InsertBefore) && spec_parse_insertable(rest) is Ok && spec_parse_insertable(rest)->Ok_0.0 == i)
                    <==> r == Ok::<(usize, Action), ParseErr>((count, Action::InsertBefore(i)))
            &&& (cmd == Some(CmdType::InsertAfter) && spec_parse_insertable(rest) is Ok && spec_parse_insertable(rest)->Ok_0.0 == i)
                    <==> r == Ok::<(usize, Action), ParseErr>((count, Action::InsertAfter(i)))
            &&& (cmd == Some(CmdType::Replace) && spec_parse_insertable(rest) is Ok && spec_parse_insertable(rest)->Ok_0.0 == i)
                    <==> r == Ok::<(usize, Action), ParseErr>((count, Action::Replace(i)))
        }),
{
}

/// Different commands that take no argument give different actions: undo is not redo, and a
/// move goes the way of its command.
pub proof fn law_distinct_commands_give_distinct_actions(keymap: KeyMap, keys1: Seq<Key>, keys2: Seq<Key>)
    requires
        count_len(keys1) < keys1.len(),
        count_len(keys2) < keys2.len(),
        keymap.spec_get(keys1[count_len(keys1) as int]) matches Some(c1) && !takes_insertable(c1),
        keymap.spec_get(keys2[count_len(keys2) as int]) matches Some(c2) && !takes_insertable(c2),
        keymap.spec_get(keys1[count_len(keys1) as int]) != keymap.spec_get(keys2[count_len(keys2) as int]),
    ensures
        spec_parse_command(keymap, keys1) matches Ok((_, a1)) && spec_parse_command(keymap, keys2) matches Ok(
            (_, a2),
        ) && a1 != a2,
{
}

/// The command takes an insertable after its key.
pub open spec fn takes_insertable(cmd: CmdType) -> bool {
    cmd == CmdType::InsertChild || cmd == CmdType::InsertBefore || cmd == CmdType::InsertAfter
        || cmd == CmdType::Replace
}

/// Every count that parsing `keys` reads fits in a `usize`.
pub open spec fn counts_fit(keymap: KeyMap, keys: Seq<Key>) -> bool {
    let n = count_len(keys);
    &&& count_of(keys) <= usize::MAX
    &&& (n < keys.len() && keymap.spec_get(keys[n as int]) is Some && takes_insertable(
        keymap.spec_get(keys[n as int])->Some_0,
    )) ==> count_of(keys.skip(n + 1 as int)) <= usize::MAX
}

proof fn lemma_count_len_skip(keys: Seq<Key>, i: int)
    requires
        0 <= i <= count_len(keys),
    ensures
        count_len(keys.skip(i)) == count_len(keys) - i,
        forall|j: int| 0 <= j < count_len(keys) ==> #[trigger] digit_of(keys[j]) is Some,
        count_len(keys) <= keys.len(),
    decreases keys.len(),
{
    if keys.len() > 0 && digit_of(keys[0]) is Some {
        if i > 0 {
            lemma_count_len_skip(keys.drop_first(), i - 1);
            assert(keys.drop_first().skip(i - 1) =~= keys.skip(i));
        } else {
            lemma_count_len_skip(keys.drop_first(), 0);
            assert(keys.skip(0) =~= keys);
        }
        assert forall|j: int| 0 <= j < count_len(keys) implies #[trigger] digit_of(keys[j]) is Some by {
            if j > 0 {
                assert(keys[j] == keys.drop_first()[j - 1]);
            }
        }
    } else {
        assert(keys.skip(0) =~= keys);
    }
}

proof fn lemma_digits_value_mono(keys: Seq<Key>, a: nat, b: nat)
    requires
        a <= b,
    ensures
        digits_value(keys, a) <= digits_value(keys, b),
    decreases b,
{
    if a < b {
        lemma_digits_value_mono(keys, a, (b - 1) as nat);
    }
}

/// Parse a 'count' off the front of `keys[pos..]`.  This cannot fail: if the first key is not
/// a numeral, the count is `1`.  Returns the count and the position after it.
fn parse_count(keys: &Vec<Key>, pos: usize) -> (r: (usize, usize))
    requires
        pos <= keys@.len(),
        count_of(keys@.skip(pos as int)) <= usize::MAX,
    ensures
        r.0 == count_of(keys@.skip(pos as int)),
        r.1 == pos + count_len(keys@.skip(pos as int)),
{
    let ghost rest = keys@.skip(pos as int);
    proof {
        lemma_count_len_skip(rest, 0);
    }
    // `accumulated_count` tracks the number that is represented by the keystrokes already
    // consumed, or `None` if no numbers have been consumed
    let mut accumulated_count: Option<usize> = None;
    let mut i: usize = pos;
    loop
        invariant
            pos <= i <= keys@.len(),
            rest == keys@.skip(pos as int),
            i - pos <= count_len(rest),
            count_len(rest) <= rest.len(),
            forall|j: int| 0 <= j < count_len(rest) ==> #[trigger] digit_of(rest[j]) is Some,
            count_of(rest) <= usize::MAX,
            i == pos ==> accumulated_count is None,
            i > pos ==> accumulated_count == Some(digits_value(rest, (i - pos) as nat) as usize),
        ensures
            i == pos + count_len(rest),
            i == pos ==> accumulated_count is None,
            i > pos ==> accumulated_count == Some(digits_value(rest, (i - pos) as nat) as usize),
        decreases keys@.len() - i,
    {
        let new_digit: usize = if i < keys.len() {
            match keys[i] {
                Key::Char(c) => {
                    if c == '0' { 0 }
                    else if c == '1' { 1 }
                    else if c == '2' { 2 }
                    else if c == '3' { 3 }
                    else if c == '4' { 4 }
                    else if c == '5' { 5 }
                    else if c == '6' { 6 }
                    else if c == '7' { 7 }
                    else if c == '8' { 8 }
                    else if c == '9' { 9 }
                    else {
                        proof {
                            if i - pos < count_len(rest) {
                                assert(rest[i - pos] == keys@[i as int]);
                                assert(digit_of(rest[i - pos]) is None);
                            }
                        }
                        break;
                    }
                },
                _ => {
                    proof {
                        if i - pos < count_len(rest) {
                            assert(rest[i - pos] == keys@[i as int]);
                            assert(digit_of(rest[i - pos]) is None);
                        }
                    }
                    break;
                },
            }
        } else {
            break;
        };
        let ghost k = (i - pos) as nat;
        proof {
            assert(rest[k as int] == keys@[i as int]);
            // The digit read is part of the count
            if k >= count_len(rest) {
                lemma_count_len_skip(rest, k as int);
                assert(rest.skip(k as int)[0] == rest[k as int]);
            }
            assert(digit_of(rest[k as int]) == Some(new_digit as nat));
            lemma_digits_value_mono(rest, k + 1, count_len(rest));
            assert(count_of(rest) == digits_value(rest, count_len(rest)));
        }
        // Since we read a new digit, we accumulate it to the count
        accumulated_count = Some(
            match accumulated_count {
                None => new_digit,
                Some(x) => x * 10 + new_digit,
            },
        );
        i = i + 1;
    }
    match accumulated_count {
        None => (1, i),
        Some(x) => (x, i),
    }
}

/// The value of `k` as a decimal digit, if it types one.
fn key_digit(k: Key) -> (d: Option<usize>)
    ensures
        d is None <==> digit_of(k) is None,
        d matches Some(v) ==> digit_of(k) == Some(v as nat) && v < 10,
{
    match k {
        Key::Char(c) => {
            if '0' <= c && c <= '9' {
                Some((c as u32 - '0' as u32) as usize)
            } else {
                None
            }
        },
        _ => None,
    }
}

/// Whether the count at the front of `keys[pos..]` fits in a `usize`.
fn count_fits(keys: &Vec<Key>, pos: usize) -> (b: bool)
    requires
        pos <= keys@.len(),
    ensures
        b == (count_of(keys@.skip(pos as int)) <= usize::MAX),
{
    let ghost rest = keys@.skip(pos as int);
    proof {
        lemma_count_len_skip(rest, 0);
    }
    let mut acc: usize = 0;
    let mut i: usize = pos;
    while i < keys.len()
        invariant
            pos <= i <= keys@.len(),
            rest == keys@.skip(pos as int),
            i - pos <= count_len(rest),
            count_len(rest) <= rest.len(),
            forall|j: int| 0 <= j < count_len(rest) ==> #[trigger] digit_of(rest[j]) is Some,
            acc == digits_value(rest, (i - pos) as nat),
        ensures
            i - pos == count_len(rest),
            acc == digits_value(rest, (i - pos) as nat),
        decreases keys@.len() - i,
    {
        let ghost k = (i - pos) as nat;
        proof {
            assert(rest[k as int] == keys@[i as int]);
        }
        let d = match key_digit(keys[i]) {
            Some(d) => d,
            None => {
                proof {
                    if k < count_len(rest) {
                        assert(digit_of(rest[k as int]) is Some);
                    }
                    if k > count_len(rest) {
                        assert(false);
                    }
                }
                break;
            },
        };
        proof {
            if k >= count_len(rest) {
                lemma_count_len_skip(rest, k as int);
                assert(rest.skip(k as int)[0] == rest[k as int]);
            }
            lemma_digits_value_mono(rest, k + 1, count_len(rest));
        }
        let next = match acc.checked_mul(10) {
            Some(x) => x.checked_add(d),
            None => None,
        };
        match next {
            Some(v) => {
                acc = v;
            },
            None => {
                // The count written so far already overflows, and the whole count is no smaller
                return false;
            },
        }
        i = i + 1;
    }
    true
}

/// Whether every count that parsing `keys` as a command reads fits in a `usize`, as
/// [`parse_command`] requires.
pub fn command_counts_fit(keymap: &KeyMap, keys: &Vec<Key>) -> (b: bool)
    ensures
        b == counts_fit(*keymap, keys@),
{
    proof {
        assert(keys@.skip(0) =~= keys@);
        lemma_count_len_skip(keys@, 0);
    }
    if !count_fits(keys, 0) {
        return false;
    }
    let (_count, next) = parse_count(keys, 0);
    if next >= keys.len() {
        return true;
    }
    match keymap.get(keys[next]) {
        Some(cmd) => match cmd {
            CmdType::InsertChild | CmdType::InsertBefore | CmdType::InsertAfter | CmdType::Replace => {
                count_fits(keys, next + 1)
            },
            _ => true,
        },
        None => true,
    }
}

/// Attempt to parse the keys from `pos` on into an [`Insertable`]: a count, then a key that
/// types a char.  Returns the insertable and the position after it.
fn parse_insertable(keys: &Vec<Key>, pos: usize) -> (r: Result<(Insertable, usize), ParseErr>)
    requires
        pos <= keys@.len(),
        count_of(keys@.skip(pos as int)) <= usize::MAX,
    ensures
        match spec_parse_insertable(keys@.skip(pos as int)) {
            Ok((i, n)) => r == Ok::<(Insertable, usize), ParseErr>((i, (pos + n) as usize)),
            Err(e) => r == Err::<(Insertable, usize), ParseErr>(e),
        },
{
    // Parse a count before reading the char
    let (count, next) = parse_count(keys, pos);
    proof {
        let rest = keys@.skip(pos as int);
        if next < keys@.len() {
            assert(rest[count_len(rest) as int] == keys@[next as int]);
        }
    }
    // Consume the next key or return incompleteness
    if next >= keys.len() {
        return Err(ParseErr::Incomplete);
    }
    // If the next keystroke is a `char`, then return it with success otherwise the command is
    // invalid
    match keys[next] {
        Key::Char(c) => Ok((Insertable::CountedNode(count, c), next + 1)),
        _ => Err(ParseErr::Invalid),
    }
}

/// Attempt to parse an entire command: a count, a command key, then the argument the command
/// takes.  This is a recursive descent parser, where there is a separate function for each
/// syntactic element.
///
/// Note that this parser will return as soon as a valid command is reached.  Therefore,
/// `"q489flshb"` will be treated like `"q"`, and will return [`Action::Quit`] even though
/// `"q489flshb"` is not technically valid.
pub fn parse_command(keymap: &KeyMap, keys: &Vec<Key>) -> (r: Result<(usize, Action), ParseErr>)
    requires
        counts_fit(*keymap, keys@),
    ensures
        r == spec_parse_command(*keymap, keys@),
{
    proof {
        assert(keys@.skip(0) =~= keys@);
    }
    // Parse a count off the front of the command
    let (count, next) = parse_count(keys, 0);
    // The first non-count keystroke represents the command name.  No keystrokes is an
    // incomplete command.
    if next >= keys.len() {
        return Err(ParseErr::Incomplete);
    }
    let first_key = keys[next];
    proof {
        let n = count_len(keys@);
        assert(keys@.skip(n + 1 as int).len() == keys@.len() - n - 1);
    }
    let cmd = match keymap.get(first_key) {
        Some(cmd) => cmd,
        None => {
            return Err(ParseErr::Invalid);
        },
    };
    let action = match cmd {
        CmdType::InsertChild => match parse_insertable(keys, next + 1) {
            Ok((i, _)) => Action::InsertChild(i),
            Err(e) => {
                return Err(e);
            },
        },
        CmdType::InsertBefore => match parse_insertable(keys, next + 1) {
            Ok((i, _)) => Action::InsertBefore(i),
            Err(e) => {
                return Err(e);
            },
        },
        CmdType::InsertAfter => match parse_insertable(keys, next + 1) {
            Ok((i, _)) => Action::InsertAfter(i),
            Err(e) => {
                return Err(e);
            },
        },
        CmdType::Replace => match parse_insertable(keys, next + 1) {
            Ok((i, _)) => Action::Replace(i),
            Err(e) => {
                return Err(e);
            },
        },
        CmdType::Delete => Action::Delete,
        CmdType::MoveCursor(direction) => Action::MoveCursor(direction),
        CmdType::Undo => Action::Undo,
        CmdType::Redo => Action::Redo,
        // "q" quits Sapling
        CmdType::Quit => Action::Quit,
        CmdType::Write => Action::Write,
    };
    Ok((count, action))
}

/// The key codes of a sequence of keystrokes.
pub open spec fn codes(keys: Seq<KeyEvent>) -> Seq<Key> {
    keys.map_values(|k: KeyEvent| k.code)
}

/// The log message of a command that could not be parsed.
pub open spec fn undefined_message(keys: Seq<KeyEvent>) -> Seq<char> {
    "Undefined command '"@ + keystrokes_text(keys) + "'"@
}

/// What the normal-mode state with keystroke buffer `buffer` does on the keystroke `key`: the
/// next state's buffer (or `None` for quitting), the log entry, and what the editor must do.
pub open spec fn spec_transition(keymap: KeyMap, buffer: Seq<KeyEvent>, key: KeyEvent) -> (
    Option<Seq<KeyEvent>>,
    Option<(Seq<char>, Category)>,
    Effect,
) {
    let keys = buffer.push(key);
    match spec_parse_command(keymap, codes(keys)) {
        Ok((count, action)) => if count == 0 {
            (Some(keys), Some(("no action"@, Category::Undefined)), Effect::Nothing)
        } else {
            match action {
                Action::Quit => (None, Some((spec_description(action), Category::Quit)), Effect::Nothing),
                Action::Write => (
                    Some(Seq::empty()),
                    Some((spec_description(action), Category::IO)),
                    Effect::Write,
                ),
                _ => (
                    Some(Seq::empty()),
                    Some((spec_description(action), spec_category(action))),
                    Effect::Edit { count, action },
                ),
            }
        },
        Err(ParseErr::Incomplete) => (Some(keys), None, Effect::Nothing),
        Err(ParseErr::Invalid) => (
            Some(Seq::empty()),
            Some((undefined_message(keys), Category::Undefined)),
            Effect::Nothing,
        ),
    }
}

/// After a keystroke, the keystroke buffer holds the keys of the unfinished command (when the
/// command is incomplete, or has a count of zero and so did not run), or is empty; quitting
/// leaves normal mode.  Only a complete command with a non-zero count asks the editor to do
/// something.
pub proof fn law_transition_buffer(keymap: KeyMap, buffer: Seq<KeyEvent>, key: KeyEvent)
    ensures
        ({
            let (next, entry, effect) = spec_transition(keymap, buffer, key);
            &&& next is None || next == Some(buffer.push(key)) || next == Some(Seq::<KeyEvent>::empty())
            &&& effect != Effect::Nothing ==> (spec_parse_command(keymap, codes(buffer.push(key))) matches Ok(
                (count, _),
            ) && count > 0)
            &&& next == Some(buffer.push(key)) ==> effect == Effect::Nothing
        }),
{
}

/// The struct covering all the states which correspond to Sapling being in normal mode: the
/// keystrokes typed so far of a command that is not finished.
#[derive(Debug, Clone)]
pub struct State {
    keystroke_buffer: Vec<KeyEvent>,
}

impl Default for State {
    fn default() -> (s: Self)
        ensures
            s.buffer() == Seq::<KeyEvent>::empty(),
    {
        State { keystroke_buffer: Vec::new() }
    }
}

impl State {
    /// The keystrokes typed so far.
    pub closed spec fn buffer(&self) -> Seq<KeyEvent> {
        self.keystroke_buffer@
    }

    /// The keystroke buffer, as it is displayed in the bottom right corner of the screen.
    pub fn keystroke_buffer(&self) -> (s: String)
        ensures
            s@ == keystrokes_text(self.buffer()),
    {
        keystrokes_to_string(&self.keystroke_buffer)
    }

    /// Whether every count in the buffer followed by `key` fits in a `usize`, as
    /// [`State::transition`] requires.
    pub fn counts_fit_with(&self, key: KeyEvent, keymap: &KeyMap) -> (b: bool)
        ensures
            b == counts_fit(*keymap, codes(self.buffer().push(key))),
    {
        let mut keys = self.keystroke_buffer.clone();
        keys.push(key);
        let key_codes = key_codes(&keys);
        command_counts_fit(keymap, &key_codes)
    }

    /// Consume a keystroke, returning the state after this transition, the entry to log (if
    /// any), and what the editor must do outside the state machine.
    pub fn transition(self, key: KeyEvent, keymap: &KeyMap) -> (r: (
        state::State,
        Option<(String, Category)>,
        Effect,
    ))
        requires
            counts_fit(*keymap, codes(self.buffer().push(key))),
        ensures
            ({
                let (next, entry, effect) = spec_transition(*keymap, self.buffer(), key);
                &&& match next {
                    None => r.0 is Quit,
                    Some(b) => r.0 matches state::State::Normal(s) && s.buffer() == b,
                }
                &&& match entry {
                    None => r.1 is None,
                    Some((text, category)) => r.1 matches Some((t, c)) && t@ == text && c
                        == category,
                }
                &&& r.2 == effect
            }),
    {
        let mut this = self;
        this.keystroke_buffer.push(key);
        let ghost keys = this.keystroke_buffer@;
        let key_codes = key_codes(&this.keystroke_buffer);
        let log_entry = match parse_command(keymap, &key_codes) {
            // If the command buffer is a valid and complete command, then the resulting action
            // is executed
            Ok((count, action)) => {
                // If the count is 0, then the command does not execute.  So we short-circuit
                // in this case
                if count == 0 {
                    return (
                        state::State::Normal(this),
                        Some((String::from_str("no action"), Category::Undefined)),
                        Effect::Nothing,
                    );
                }
                match action {
                    // Quitting makes an immediate transition to the quit state.  It doesn't
                    // matter what the count is, because quitting is idempotent
                    Action::Quit => {
                        return (
                            state::State::Quit(state::Quit),
                            Some((action.description(), action.category())),
                            Effect::Nothing,
                        );
                    },
                    Action::Write => {
                        this.keystroke_buffer.clear();
                        return (
                            state::State::Normal(this),
                            Some((action.description(), action.category())),
                            Effect::Write,
                        );
                    },
                    _ => {
                        this.keystroke_buffer.clear();
                        return (
                            state::State::Normal(this),
                            Some((action.description(), action.category())),
                            Effect::Edit { count, action },
                        );
                    },
                }
            },
            // If the command is incomplete, the buffer is kept and nothing is logged
            Err(ParseErr::Incomplete) => {
                return (state::State::Normal(this), None, Effect::Nothing);
            },
            // If the command is invalid, the invalid command is reported as a log message
            Err(ParseErr::Invalid) => {
                let mut message = String::from_str("Undefined command '");
                let keys_text = keystrokes_to_string(&this.keystroke_buffer);
                message.append(keys_text.as_str());
                message.append("'");
                (message, Category::Undefined)
            },
        };
        // If we haven't returned yet, then clear the buffer
        this.keystroke_buffer.clear();
        (state::State::Normal(this), Some(log_entry), Effect::Nothing)
    }
}

/// The key codes of `keys`.
fn key_codes(keys: &Vec<KeyEvent>) -> (r: Vec<Key>)
    ensures
        r@ == codes(keys@),
{
    let mut r: Vec<Key> = Vec::new();
    let mut i: usize = 0;
    while i < keys.len()
        invariant
            i <= keys@.len(),
            r@ == codes(keys@.take(i as int)),
        decreases keys@.len() - i,
    {
        r.push(keys[i].code);
        i = i + 1;
        proof {
            assert(codes(keys@.take(i as int)) =~= codes(keys@.take(i - 1)).push(keys@[i - 1].code));
        }
    }
    proof {
        assert(keys@.take(i as int) =~= keys@);
    }
    r
}

} // verus!
