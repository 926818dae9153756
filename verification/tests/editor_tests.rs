use sapling::ast::display_token::DisplayToken as T;
use sapling::editor::layout::layout_tokens;
use sapling::arena::Arena;
use sapling::ast::json::JsonFormat;
use sapling::ast::test_json::TestJson;
use sapling::base::Direction;
use sapling::editable_tree::{EditErr, EditSuccess, DAG};
use sapling::editor::state::{perform, Performed};
use sapling::editor::keystroke_log::{Category, KeyStrokeLog};
use sapling::editor::normal_mode::{default_keymap, parse_command, Action, CmdType, Insertable, ParseErr};
use sapling::base::key_display::{keystrokes_to_string, KeyDisplay, ALT, CONTROL, SHIFT};
use sapling::editor::normal_mode::command_counts_fit;
use sapling::editor::state::{Effect, State};
use sapling::editor::{Key, KeyEvent};

fn plain(c: char) -> KeyEvent {
    KeyEvent::new(Key::Char(c), 0)
}

fn to_char_keys(string: &str) -> Vec<Key> {
    string.chars().map(Key::Char).collect::<Vec<_>>()
}

#[test]
fn parse_single_cmd_valid() {
    let keymap = default_keymap();
    for (keystrokes, expected_effect) in &[
        ("x", Action::Delete),
        ("h", Action::MoveCursor(Direction::Prev)),
        ("j", Action::MoveCursor(Direction::Next)),
        ("k", Action::MoveCursor(Direction::Prev)),
        ("l", Action::MoveCursor(Direction::Next)),
        ("pajlbsi", Action::MoveCursor(Direction::Up)),
        ("ra", Action::Replace(Insertable::CountedNode(1, 'a'))),
        ("rg", Action::Replace(Insertable::CountedNode(1, 'g'))),
        ("oX", Action::InsertChild(Insertable::CountedNode(1, 'X'))),
        ("oP", Action::InsertChild(Insertable::CountedNode(1, 'P'))),
        ("a3t", Action::InsertAfter(Insertable::CountedNode(3, 't'))),
        ("an", Action::InsertAfter(Insertable::CountedNode(1, 'n'))),
        ("a1n", Action::InsertAfter(Insertable::CountedNode(1, 'n'))),
        ("i0X", Action::InsertBefore(Insertable::CountedNode(0, 'X'))),
        ("ii", Action::InsertBefore(Insertable::CountedNode(1, 'i'))),
        ("a15x", Action::InsertAfter(Insertable::CountedNode(15, 'x'))),
        ("q", Action::Quit),
    ] {
        assert_eq!(parse_command(&keymap, &to_char_keys(keystrokes)), Ok((1, expected_effect.clone())));
    }
}

#[test]
fn parse_counted_command() {
    let keymap = default_keymap();
    for (keystrokes, exp_count, exp_action) in &[
        ("1x", 1, Action::Delete),
        ("0ra", 0, Action::Replace(Insertable::CountedNode(1, 'a'))),
        ("12o5p", 12, Action::InsertChild(Insertable::CountedNode(5, 'p'))),
    ] {
        assert_eq!(parse_command(&keymap, &to_char_keys(keystrokes)), Ok((*exp_count, exp_action.clone())));
    }
}

#[test]
fn parse_keystroke_invalid() {
    let keymap = default_keymap();
    for keystroke in &["d", "Pxx", "Qsx", "t", "Y", "X", "\""] {
        println!("Testing {}", keystroke);
        assert_eq!(parse_command(&keymap, &to_char_keys(keystroke)), Err(ParseErr::Invalid));
    }
}

#[test]
fn parse_keystroke_incomplete() {
    let keymap = default_keymap();
    for keystroke in &["", "r", "o", "a", "i", "o3", "i34", "3", "1o", "0o3", "41523"] {
        println!("Testing {}", keystroke);
        assert_eq!(parse_command(&keymap, &to_char_keys(keystroke)), Err(ParseErr::Incomplete));
    }
}

#[test]
fn parse_non_char_keys() {
    let keymap = default_keymap();
    // A key that types no char is not a command...
    assert_eq!(parse_command(&keymap, &vec![Key::Other(3)]), Err(ParseErr::Invalid));
    // ... nor the node of an insertion
    assert_eq!(parse_command(&keymap, &vec![Key::Char('r'), Key::Other(3)]), Err(ParseErr::Invalid));
}

#[test]
fn summaries_and_descriptions() {
    assert_eq!(CmdType::MoveCursor(Direction::Down).summary_string(), "move to child");
    assert_eq!(CmdType::InsertBefore.summary_string(), "insert before");
    assert_eq!(Action::Replace(Insertable::CountedNode(1, 'a')).description(), "replace cursor with 'a'");
    assert_eq!(Action::InsertChild(Insertable::CountedNode(1, 't')).description(), "insert 't' as last child");
    assert_eq!(Action::Quit.description(), "quit Sapling");
    assert_eq!(Action::Undo.category(), Category::History);
    assert_eq!(Action::InsertAfter(Insertable::CountedNode(2, 'n')).category(), Category::Insert);
}

#[test]
fn keystroke_log_counts_and_limits() {
    let mut log = KeyStrokeLog::new(2);
    log.push_key(plain('x'));
    log.log_entry("delete cursor".to_string(), Category::Delete);
    log.push_key(plain('x'));
    log.log_entry("delete cursor".to_string(), Category::Delete);
    // Repeated keystrokes are counted in one entry
    assert_eq!(log.log_entries().len(), 1);
    assert_eq!(log.log_entries()[0].count(), 2);
    log.push_key(plain('u'));
    log.log_entry("undo a change".to_string(), Category::History);
    log.push_key(plain('q'));
    log.log_entry("quit Sapling".to_string(), Category::Quit);
    // Only the newest two entries are kept
    assert_eq!(log.log_entries().len(), 2);
    assert_eq!(log.log_entries()[0].description(), "undo a change");
    assert_eq!(log.log_entries()[1].keystrokes(), &vec![plain('q')]);
    assert_eq!(log.log_entries()[1].category(), Category::Quit);
    log.set_max_entries(1);
    assert_eq!(log.log_entries().len(), 1);
    assert_eq!(log.log_entries()[0].description(), "quit Sapling");
}

#[test]
fn compact_strings() {
    assert_eq!(plain('a').compact_string(), "a");
    assert_eq!(KeyEvent::new(Key::Char('c'), CONTROL).compact_string(), "^c");
    assert_eq!(KeyEvent::new(Key::Up, 0).compact_string(), "<Up>");
    assert_eq!(KeyEvent::new(Key::Enter, 0).compact_string(), "<CR>");
    assert_eq!(KeyEvent::new(Key::Backspace, 0).compact_string(), "<BS>");
    assert_eq!(KeyEvent::new(Key::F(12), 0).compact_string(), "<F12>");
    assert_eq!(KeyEvent::new(Key::Char('P'), SHIFT).compact_string(), "<S-P>");
    assert_eq!(KeyEvent::new(Key::Left, CONTROL | ALT).compact_string(), "<C-A-Left>");
    assert_eq!(KeyEvent::new(Key::Other(7), 0).compact_string(), "<Key7>");
    assert_eq!(
        keystrokes_to_string(&vec![plain('3'), KeyEvent::new(Key::Esc, 0), plain('x')]),
        "3<Esc>x"
    );
    assert_eq!(keystrokes_to_string(&vec![]), "");
}

fn feed(state: State, keys: &str) -> (State, Vec<(Option<(String, Category)>, Effect)>) {
    let keymap = default_keymap();
    let mut state = state;
    let mut outputs = Vec::new();
    for c in keys.chars() {
        let (next, entry, effect) = state.transition(plain(c), &keymap);
        state = next;
        outputs.push((entry, effect));
    }
    (state, outputs)
}

#[test]
fn transition_incomplete_then_complete() {
    let (state, outputs) = feed(State::new(), "3o");
    assert_eq!(state.keystroke_buffer(), "3o");
    assert_eq!(outputs, vec![(None, Effect::Nothing), (None, Effect::Nothing)]);
    let (state, outputs) = feed(state, "t");
    assert_eq!(state.keystroke_buffer(), "");
    assert!(!state.is_quit());
    assert_eq!(
        outputs,
        vec![(
            Some(("insert 't' as last child".to_string(), Category::Insert)),
            Effect::Edit { count: 3, action: Action::InsertChild(Insertable::CountedNode(1, 't')) }
        )]
    );
}

#[test]
fn transition_invalid_command() {
    let (state, outputs) = feed(State::new(), "3Y");
    assert_eq!(state.keystroke_buffer(), "");
    assert_eq!(
        outputs[1],
        (Some(("Undefined command '3Y'".to_string(), Category::Undefined)), Effect::Nothing)
    );
}

#[test]
fn transition_zero_count_keeps_buffer() {
    let (state, outputs) = feed(State::new(), "0x");
    assert_eq!(outputs[1], (Some(("no action".to_string(), Category::Undefined)), Effect::Nothing));
    assert_eq!(state.keystroke_buffer(), "0x");
}

#[test]
fn transition_write_and_quit() {
    let (state, outputs) = feed(State::new(), "w");
    assert_eq!(outputs[0], (Some(("write to disk".to_string(), Category::IO)), Effect::Write));
    assert_eq!(state.keystroke_buffer(), "");
    let (state, outputs) = feed(state, "q");
    assert!(state.is_quit());
    assert_eq!(outputs[0], (Some(("quit Sapling".to_string(), Category::Quit)), Effect::Nothing));
    // The quit state ignores every further keystroke
    let (state, outputs) = feed(state, "x");
    assert!(state.is_quit());
    assert_eq!(outputs[0], (None, Effect::Nothing));
    assert_eq!(state.keystroke_buffer(), "");
}

#[test]
fn counts_that_overflow() {
    let keymap = default_keymap();
    assert!(command_counts_fit(&keymap, &to_char_keys("12o5p")));
    assert!(command_counts_fit(&keymap, &to_char_keys("18446744073709551615x")));
    assert!(!command_counts_fit(&keymap, &to_char_keys("18446744073709551616x")));
    assert!(!command_counts_fit(&keymap, &to_char_keys("o99999999999999999999999")));
    assert!(command_counts_fit(&keymap, &to_char_keys("x99999999999999999999999")));
}

#[test]
fn parse_stops_at_first_complete_command() {
    let keymap = default_keymap();
    assert_eq!(parse_command(&keymap, &to_char_keys("q489flshb")), Ok((1, Action::Quit)));
    assert_eq!(
        parse_command(&keymap, &to_char_keys("2ohello")),
        Ok((2, Action::InsertChild(Insertable::CountedNode(1, 'h'))))
    );
}

#[test]
fn perform_actions_on_a_tree() {
    let arena = Arena::new();
    let root = TestJson::Array(vec![TestJson::True]).add_to_arena(&arena);
    let mut tree = DAG::new(&arena, root);
    assert_eq!(perform(&mut tree, Action::Undo), Performed::Edit(Err(EditErr::NoChangesToUndo)));
    assert_eq!(perform(&mut tree, Action::MoveCursor(Direction::Down)), Performed::Move(None));
    assert_eq!(
        perform(&mut tree, Action::InsertAfter(Insertable::CountedNode(1, 'f'))),
        Performed::Edit(Ok(EditSuccess::InsertNextToCursor {
            side: sapling::base::Side::Next,
            c: 'f',
            name: "false".to_string()
        }))
    );
    assert_eq!(tree.to_text(&JsonFormat::Compact), "[true, false]");
    assert_eq!(perform(&mut tree, Action::Replace(Insertable::CountedNode(1, 'n'))), Performed::Edit(Ok(EditSuccess::Replace { c: 'n', name: "null".to_string() })));
    assert_eq!(tree.to_text(&JsonFormat::Compact), "[true, null]");
    assert_eq!(perform(&mut tree, Action::Undo), Performed::Edit(Ok(EditSuccess::Undo)));
    assert_eq!(tree.to_text(&JsonFormat::Compact), "[true, false]");
    assert_eq!(perform(&mut tree, Action::Write), Performed::Nothing);
}

#[test]
fn layout_of_display_tokens() {
    let text = |s: &str| T::Text(s.to_string(), "literal");
    let tokens = vec![
        text("["),
        T::Indent,
        T::Newline,
        text("true"),
        text(","),
        T::Newline,
        text("false"),
        T::Dedent,
        T::Newline,
        text("]"),
    ];
    assert_eq!(
        layout_tokens(&tokens, 0, 0),
        Some(vec![(0, 0), (0, 1), (0, 1), (1, 4), (1, 8), (1, 9), (2, 4), (2, 9), (2, 9), (3, 0)])
    );
    // A text of several lines ends on its last line
    let tokens = vec![text("a\nbc"), T::Whitespace(3), text("d")];
    assert_eq!(layout_tokens(&tokens, 5, 7), Some(vec![(5, 7), (6, 2), (6, 5)]));
    // Dedenting below no indentation, or going past the last column, does not fit
    assert_eq!(layout_tokens(&vec![T::Dedent], 0, 0), None);
    assert_eq!(layout_tokens(&vec![T::Whitespace(2), text("x")], 0, usize::MAX - 1), None);
    assert_eq!(layout_tokens(&vec![], 3, 4), Some(vec![]));
}
