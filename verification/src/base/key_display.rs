//! Keystrokes, and a convenient way to display them.

use vstd::prelude::*;
use vstd::string::*;

use super::string_push;

verus! {

/// The code of a key: a key that types a character, one of the named special keys, or any
/// other key (told apart from the others by a number).
#[derive(Debug, Copy, Clone, PartialEq, Eq, Hash, Structural)]
pub enum Key {
    /// A key that types a character
    Char(char),
    Up,
    Down,
    Left,
    Right,
    /// A function key, with its number
    F(u8),
    Esc,
    Backspace,
    Delete,
    Tab,
    BackTab,
    Enter,
    Insert,
    Home,
    End,
    PageUp,
    PageDown,
    /// Any other key
    Other(u32),
}

/// The modifier bit of the shift key.
pub const SHIFT: u8 = 0b1;
/// The modifier bit of the control key.
pub const CONTROL: u8 = 0b10;
/// The modifier bit of the alt key.
pub const ALT: u8 = 0b100;
/// The modifier bit of the super key.
pub const SUPER: u8 = 0b1000;
/// The modifier bit of the hyper key.
pub const HYPER: u8 = 0b1_0000;
/// The modifier bit of the meta key.
pub const META: u8 = 0b10_0000;

/// A keystroke: the key's code and the modifier keys held down with it (a combination of
/// [`SHIFT`], [`CONTROL`], [`ALT`], [`SUPER`], [`HYPER`] and [`META`]).
#[derive(Debug, Copy, Clone, PartialEq, Eq, Hash, Structural)]
pub struct KeyEvent {
    pub code: Key,
    pub modifiers: u8,
}

impl KeyEvent {
    /// A keystroke of `code` with the modifier keys `modifiers`.
    pub fn new(code: Key, modifiers: u8) -> (ev: KeyEvent)
        ensures
            ev == (KeyEvent { code, modifiers }),
    {
        KeyEvent { code, modifiers }
    }
}

/// `true` if the modifier bit `bit` is set in `modifiers`.
pub open spec fn has_modifier(modifiers: u8, bit: u8) -> bool {
    modifiers & bit != 0
}

/// The decimal digits of `n`.
pub open spec fn decimal(n: nat) -> Seq<char>
    decreases n,
{
    if n < 10 {
        seq![(n + 48) as char]
    } else {
        decimal(n / 10) + seq![((n % 10) + 48) as char]
    }
}

/// The name of a key, as written between angle brackets.
pub open spec fn key_name(code: Key) -> Seq<char> {
    match code {
        Key::Char(c) => seq![c],
        Key::Up => "Up"@,
        Key::Down => "Down"@,
        Key::Left => "Left"@,
        Key::Right => "Right"@,
        Key::F(n) => "F"@ + decimal(n as nat),
        Key::Esc => "Esc"@,
        Key::Backspace => "BS"@,
        Key::Delete => "Del"@,
        Key::Tab => "Tab"@,
        Key::BackTab => "BackTab"@,
        Key::Enter => "CR"@,
        Key::Insert => "Insert"@,
        Key::Home => "Home"@,
        Key::End => "End"@,
        Key::PageUp => "PageUp"@,
        Key::PageDown => "PageDown"@,
        Key::Other(n) => "Key"@ + decimal(n as nat),
    }
}

/// The decimal digits of a number are digits, at least one of them.
proof fn lemma_decimal_digits(n: nat)
    ensures
        decimal(n).len() >= 1,
        forall|i: int| 0 <= i < decimal(n).len() ==> '0' <= #[trigger] decimal(n)[i] <= '9',
    decreases n,
{
    if n >= 10 {
        lemma_decimal_digits(n / 10);
        let d = decimal(n / 10);
        assert forall|i: int| 0 <= i < decimal(n).len() implies '0' <= #[trigger] decimal(n)[i] <= '9' by {
            if i < d.len() {
                assert(decimal(n)[i] == d[i]);
            }
        }
    }
}

/// Different numbers have different decimal digits.
pub proof fn law_decimal_injective(a: nat, b: nat)
    requires
        decimal(a) == decimal(b),
    ensures
        a == b,
    decreases a,
{
    lemma_decimal_digits(a / 10);
    lemma_decimal_digits(b / 10);
    let da = decimal(a);
    let db = decimal(b);
    assert(da.last() == db.last());
    if a < 10 && b < 10 {
        assert(da[0] == db[0]);
    } else if a < 10 {
        assert(db.len() >= 2);
    } else if b < 10 {
        assert(da.len() >= 2);
    } else {
        assert(da.drop_last() =~= decimal(a / 10));
        assert(db.drop_last() =~= decimal(b / 10));
        law_decimal_injective(a / 10, b / 10);
        assert(da.last() == ((a % 10) + 48) as char);
        assert(db.last() == ((b % 10) + 48) as char);
    }
}

/// Different keys have different names: each key is told apart by its name (`Delete` is
/// `Del`, `Backspace` is `BS`, a function key or any other key by its number).
pub proof fn law_key_names_distinct(a: Key, b: Key)
    requires
        key_name(a) == key_name(b),
    ensures
        a == b,
{
    reveal_strlit("Up");
    reveal_strlit("Down");
    reveal_strlit("Left");
    reveal_strlit("Right");
    reveal_strlit("F");
    reveal_strlit("Esc");
    reveal_strlit("BS");
    reveal_strlit("Del");
    reveal_strlit("Tab");
    reveal_strlit("BackTab");
    reveal_strlit("CR");
    reveal_strlit("Insert");
    reveal_strlit("Home");
    reveal_strlit("End");
    reveal_strlit("PageUp");
    reveal_strlit("PageDown");
    reveal_strlit("Key");
    let na = key_name(a);
    let nb = key_name(b);
    match a {
        Key::F(x) => lemma_decimal_digits(x as nat),
        Key::Other(x) => lemma_decimal_digits(x as nat),
        _ => {},
    }
    match b {
        Key::F(x) => lemma_decimal_digits(x as nat),
        Key::Other(x) => lemma_decimal_digits(x as nat),
        _ => {},
    }
    match (a, b) {
        (Key::F(x), Key::F(y)) => {
            assert(decimal(x as nat) =~= na.skip(1));
            assert(decimal(y as nat) =~= nb.skip(1));
            law_decimal_injective(x as nat, y as nat);
        },
        (Key::Other(x), Key::Other(y)) => {
            assert(decimal(x as nat) =~= na.skip(3));
            assert(decimal(y as nat) =~= nb.skip(3));
            law_decimal_injective(x as nat, y as nat);
        },
        _ => {
            assert(na.len() == nb.len());
            assert(na[0] == nb[0]);
            if na.len() > 1 {
                assert(na[1] == nb[1]);
            }
            if na.len() > 2 {
                assert(na[2] == nb[2]);
            }
            if na.len() > 4 {
                assert(na[4] == nb[4]);
            }
        },
    }
}

/// `text` when the modifier bit `bit` is set in `modifiers`, and nothing otherwise.
#[verifier::opaque]
pub open spec fn if_modifier(modifiers: u8, bit: u8, text: Seq<char>) -> Seq<char> {
    if has_modifier(modifiers, bit) {
        text
    } else {
        Seq::empty()
    }
}

/// The prefix that names the modifier keys of a keystroke: `C-`, `S-`, `A-`, `D-`, `H-`, `M-`
/// for control, shift, alt, super, hyper and meta, in that order.
pub open spec fn modifier_prefix(modifiers: u8) -> Seq<char> {
    if_modifier(modifiers, CONTROL, "C-"@) + if_modifier(modifiers, SHIFT, "S-"@) + if_modifier(
        modifiers,
        ALT,
        "A-"@,
    ) + if_modifier(modifiers, SUPER, "D-"@) + if_modifier(modifiers, HYPER, "H-"@) + if_modifier(
        modifiers,
        META,
        "M-"@,
    )
}

/// The compact text of a keystroke: `^c` for control and a char `c`; the char itself for a
/// char key with no modifiers; otherwise the modifiers and the key's name in angle brackets,
/// such as `<Up>`, `<F5>` or `<A-x>`.
pub open spec fn compact_text(ev: KeyEvent) -> Seq<char> {
    match ev.code {
        Key::Char(c) if has_modifier(ev.modifiers, CONTROL) => seq!['^', c],
        Key::Char(c) if ev.modifiers == 0 => seq![c],
        _ => "<"@ + modifier_prefix(ev.modifiers) + key_name(ev.code) + ">"@,
    }
}

/// The compact texts of a sequence of keystrokes, one after the other.
pub open spec fn keystrokes_text(keys: Seq<KeyEvent>) -> Seq<char>
    decreases keys.len(),
{
    if keys.len() == 0 {
        Seq::empty()
    } else {
        keystrokes_text(keys.drop_last()) + compact_text(keys.last())
    }
}

/// Appends the decimal digits of `n` to `s`.
pub(crate) fn push_decimal(s: &mut String, n: usize)
    ensures
        final(s)@ == old(s)@ + decimal(n as nat),
    decreases n,
{
    if n >= 10 {
        push_decimal(s, n / 10);
    }
    let digit = (n % 10) as u8;
    string_push(s, (digit + 48) as char);
    proof {
        assert(((n % 10) + 48) as char == (digit + 48) as char);
    }
}

/// Appends the name of the key `code` to `s`.
fn push_key_name(s: &mut String, code: Key)
    ensures
        final(s)@ == old(s)@ + key_name(code),
{
    match code {
        Key::Char(c) => string_push(s, c),
        Key::Up => s.append("Up"),
        Key::Down => s.append("Down"),
        Key::Left => s.append("Left"),
        Key::Right => s.append("Right"),
        Key::F(n) => {
            s.append("F");
            push_decimal(s, n as usize);
        },
        Key::Esc => s.append("Esc"),
        Key::Backspace => s.append("BS"),
        Key::Delete => s.append("Del"),
        Key::Tab => s.append("Tab"),
        Key::BackTab => s.append("BackTab"),
        Key::Enter => s.append("CR"),
        Key::Insert => s.append("Insert"),
        Key::Home => s.append("Home"),
        Key::End => s.append("End"),
        Key::PageUp => s.append("PageUp"),
        Key::PageDown => s.append("PageDown"),
        Key::Other(n) => {
            s.append("Key");
            push_decimal(s, n as usize);
        },
    }
}

/// Appends `text` to `s` when the modifier bit `bit` is set in `modifiers`.
fn push_if_modifier(s: &mut String, modifiers: u8, bit: u8, text: &str)
    ensures
        final(s)@ == old(s)@ + if_modifier(modifiers, bit, text@),
{
    proof {
        reveal(if_modifier);
    }
    if modifiers & bit != 0 {
        s.append(text);
    } else {
        assert(s@ =~= s@ + Seq::<char>::empty());
    }
}

/// Appends the names of the modifier keys `modifiers` to `s`.
fn push_modifier_prefix(s: &mut String, modifiers: u8)
    ensures
        final(s)@ == old(s)@ + modifier_prefix(modifiers),
{
    let ghost p0 = s@;
    push_if_modifier(s, modifiers, CONTROL, "C-");
    push_if_modifier(s, modifiers, SHIFT, "S-");
    push_if_modifier(s, modifiers, ALT, "A-");
    push_if_modifier(s, modifiers, SUPER, "D-");
    push_if_modifier(s, modifiers, HYPER, "H-");
    push_if_modifier(s, modifiers, META, "M-");
    assert(s@ =~= p0 + modifier_prefix(modifiers));
}

/// Appends the compact text of the keystroke `ev` to `s`.
fn push_compact(s: &mut String, ev: KeyEvent)
    ensures
        final(s)@ == old(s)@ + compact_text(ev),
{
    let ghost s0 = s@;
    if let Key::Char(c) = ev.code {
        if ev.modifiers & CONTROL != 0 {
            string_push(s, '^');
            string_push(s, c);
            assert(s@ =~= s0 + compact_text(ev));
            return;
        }
        if ev.modifiers == 0 {
            string_push(s, c);
            assert(s@ =~= s0 + compact_text(ev));
            return;
        }
    }
    string_push(s, '<');
    push_modifier_prefix(s, ev.modifiers);
    push_key_name(s, ev.code);
    string_push(s, '>');
    proof {
        reveal_strlit("<");
        reveal_strlit(">");
        assert(s@ =~= s0 + ("<"@ + modifier_prefix(ev.modifiers) + key_name(ev.code) + ">"@));
    }
}

/// An extension trait to add a convenient way to display keystrokes
pub trait KeyDisplay {
    /// Return a compact string representing this keystroke
    fn compact_string(self) -> String;
}

impl KeyDisplay for KeyEvent {
    fn compact_string(self) -> (s: String)
        ensures
            s@ == compact_text(self),
    {
        let mut s = String::new();
        push_compact(&mut s, self);
        s
    }
}

/// Converts a keystroke buffer into a `String`: the compact strings of its keystrokes, one after
/// the other.
pub fn keystrokes_to_string(keystroke_buffer: &Vec<KeyEvent>) -> (s: String)
    ensures
        s@ == keystrokes_text(keystroke_buffer@),
{
    let mut s = String::new();
    let mut i: usize = 0;
    while i < keystroke_buffer.len()
        invariant
            i <= keystroke_buffer@.len(),
            s@ == keystrokes_text(keystroke_buffer@.take(i as int)),
        decreases keystroke_buffer@.len() - i,
    {
        proof {
            assert(keystroke_buffer@.take(i + 1).drop_last() == keystroke_buffer@.take(i as int));
        }
        push_compact(&mut s, keystroke_buffer[i]);
        i = i + 1;
    }
    proof {
        assert(keystroke_buffer@.take(i as int) == keystroke_buffer@);
    }
    s
}

} // verus!
