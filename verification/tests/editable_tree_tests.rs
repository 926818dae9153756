use sapling::arena::Arena;
use sapling::ast::json::{Json, JsonFormat};
use sapling::ast::test_json::TestJson;
use sapling::ast::DeleteError;
use sapling::ast_spec::json::JSON;
use sapling::ast_spec::test_json::TestJSON;
use sapling::ast_spec::vec_node_map::{Index, VecNodeMap};
use sapling::base::{Direction, Side};
use sapling::editable_tree::cursor_path::{SegPath, Segment};
use sapling::editable_tree::persistent::{Persistent, Ref};
use sapling::editable_tree::spec::Spec;
use sapling::editable_tree::{EditErr, EditSuccess, DAG};

fn tree() -> TestJson {
    TestJson::Array(vec![TestJson::True, TestJson::False])
}

#[test]
fn dag_navigation() {
    let arena = Arena::new();
    let t = tree();
    let root = t.add_to_arena(&arena);
    let mut dag = DAG::new(&arena, root);
    assert!(std::ptr::eq(dag.root(), root));
    assert!(dag.cursor_and_parent().1.is_none());
    // Can't move up from the root
    assert_eq!(dag.move_cursor(Direction::Up), Some("Cannot move to the parent of the root.".to_string()));
    assert_eq!(dag.move_cursor(Direction::Prev), Some("Cannot move to a sibling of the root.".to_string()));
    assert_eq!(dag.move_cursor(Direction::Down), None);
    assert_eq!(dag.cursor().display_name(), "true");
    assert_eq!(dag.move_cursor(Direction::Prev), Some("Cannot move before the first child of a node.".to_string()));
    assert_eq!(dag.move_cursor(Direction::Next), None);
    assert_eq!(dag.cursor().display_name(), "false");
    assert_eq!(dag.move_cursor(Direction::Next), Some("Cannot move past the last sibling of a node.".to_string()));
    assert_eq!(
        dag.move_cursor(Direction::Down),
        Some("Cannot move down the tree if the cursor has no children.".to_string())
    );
    // Prev then Next returns the cursor to where it was
    assert_eq!(dag.move_cursor(Direction::Prev), None);
    assert_eq!(dag.move_cursor(Direction::Next), None);
    assert_eq!(dag.cursor().display_name(), "false");
    // Up then Down returns to the first child
    assert_eq!(dag.move_cursor(Direction::Up), None);
    assert_eq!(dag.cursor().display_name(), "array");
}

#[test]
fn dag_edit_undo_redo() {
    let arena = Arena::new();
    let t = tree();
    let root = t.add_to_arena(&arena);
    let mut dag = DAG::new(&arena, root);
    assert_eq!(dag.undo(), Err(EditErr::NoChangesToUndo));
    assert_eq!(dag.redo(), Err(EditErr::NoChangesToRedo));
    dag.move_cursor(Direction::Down);
    // Replace 'true' with 'null'
    assert_eq!(dag.replace_cursor('n'), Ok(EditSuccess::Replace { c: 'n', name: "null".to_string() }));
    assert_eq!(dag.to_text(&JsonFormat::Compact), "[null, false]");
    assert_eq!(dag.replace_cursor('X'), Err(EditErr::CannotReplace('X')));
    // After an edit, there is nothing to redo
    assert_eq!(dag.redo(), Err(EditErr::NoChangesToRedo));
    // Undo goes back to the first tree, and redo forward again
    assert_eq!(dag.undo(), Ok(EditSuccess::Undo));
    assert_eq!(dag.to_text(&JsonFormat::Compact), "[true, false]");
    assert!(std::ptr::eq(dag.root(), root));
    assert_eq!(dag.redo(), Ok(EditSuccess::Redo));
    assert_eq!(dag.to_text(&JsonFormat::Compact), "[null, false]");
    // The untouched sibling is shared between the two trees
    let mut s = String::new();
    dag.write_text(&mut s, &JsonFormat::Pretty);
    assert_eq!(s, "[\n    null,\n    false\n]");
}

#[test]
fn dag_insertions() {
    let arena = Arena::new();
    let t = tree();
    let root = t.add_to_arena(&arena);
    let mut dag = DAG::new(&arena, root);
    // Insert a child into the root array, which then is selected
    assert_eq!(dag.insert_child('o'), Ok(EditSuccess::InsertChild { c: 'o', name: "object".to_string() }));
    assert_eq!(dag.cursor().display_name(), "object");
    assert_eq!(dag.to_text(&JsonFormat::Compact), "[true, false, {}]");
    // Inserting into an object wraps the new node in a field with an empty key
    assert_eq!(dag.insert_child('t'), Ok(EditSuccess::InsertChild { c: 't', name: "true".to_string() }));
    assert_eq!(dag.to_text(&JsonFormat::Compact), "[true, false, {\"\": true}]");
    assert_eq!(dag.cursor().display_name(), "field");
    // Fields take no new children
    assert_eq!(
        dag.insert_child('t'),
        Err(EditErr::CannotInsertInto { c: 't', parent_name: "field".to_string() })
    );
    // Insert next to the field
    assert_eq!(
        dag.insert_next_to_cursor('f', Side::Prev),
        Ok(EditSuccess::InsertNextToCursor { side: Side::Prev, c: 'f', name: "false".to_string() })
    );
    assert_eq!(dag.to_text(&JsonFormat::Compact), "[true, false, {\"\": false, \"\": true}]");
    // Can't add siblings to the root
    let mut dag2 = DAG::new(&arena, root);
    assert_eq!(dag2.insert_next_to_cursor('t', Side::Next), Err(EditErr::AddSiblingToRoot));
    dag2.move_cursor(Direction::Down);
    assert_eq!(
        dag2.insert_next_to_cursor('s', Side::Next),
        Ok(EditSuccess::InsertNextToCursor { side: Side::Next, c: 's', name: "\"\"".to_string() })
    );
    assert_eq!(dag2.to_text(&JsonFormat::Compact), "[true, \"\", false]");
    assert_eq!(dag2.cursor().display_name(), "\"\"");
}

#[test]
fn dag_delete() {
    let arena = Arena::new();
    let t = TestJson::Array(vec![TestJson::Array(vec![TestJson::Null])]);
    let root = t.add_to_arena(&arena);
    let mut dag = DAG::new(&arena, root);
    dag.move_cursor(Direction::Down);
    dag.move_cursor(Direction::Down);
    assert_eq!(dag.cursor().display_name(), "null");
    assert_eq!(dag.delete_cursor(), Ok(()));
    assert_eq!(dag.to_text(&JsonFormat::Compact), "[[]]");
    assert_eq!(dag.cursor().display_name(), "array");
    // Fields keep both of their children
    let t = TestJson::Object(vec![("k".to_string(), TestJson::True)]);
    let root = t.add_to_arena(&arena);
    let mut dag = DAG::new(&arena, root);
    dag.move_cursor(Direction::Down);
    dag.move_cursor(Direction::Down);
    assert_eq!(
        dag.delete_cursor(),
        Err(DeleteError::TooFewChildren { name: "field".to_string(), min_children: 2 })
    );
    assert_eq!(dag.to_text(&JsonFormat::Compact), "{\"k\": true}");
    let _unused: Option<&Json> = None;
}

#[test]
fn dag_delete_among_siblings() {
    let arena = Arena::new();
    let t = TestJson::Array(vec![TestJson::True, TestJson::False, TestJson::Null]);
    let root = t.add_to_arena(&arena);
    let mut dag = DAG::new(&arena, root);
    assert_eq!(dag.move_cursor(Direction::Down), None);
    // the cursor moves to the child that takes the deleted one's place
    assert_eq!(dag.delete_cursor(), Ok(()));
    assert_eq!(dag.to_text(&JsonFormat::Compact), "[false, null]");
    assert_eq!(dag.cursor().display_name(), "false");
    // deleting the last child moves the cursor back by one
    assert_eq!(dag.move_cursor(Direction::Next), None);
    assert_eq!(dag.delete_cursor(), Ok(()));
    assert_eq!(dag.to_text(&JsonFormat::Compact), "[false]");
    assert_eq!(dag.cursor().display_name(), "false");
    // deleting the only child moves the cursor up
    assert_eq!(dag.delete_cursor(), Ok(()));
    assert_eq!(dag.to_text(&JsonFormat::Compact), "[]");
    assert_eq!(dag.cursor().display_name(), "array");
    // and each deletion can be undone
    let _ = dag.undo();
    assert_eq!(dag.to_text(&JsonFormat::Compact), "[false]");
}

#[test]
fn segment_paths() {
    let map = TestJSON::Array(vec![TestJSON::True]).build_node_map();
    let root = map.root();
    let mut path = SegPath::with_root(root);
    assert_eq!(path.node(), root);
    assert_eq!(path._move(Direction::Up, &map), Some("Already at the tree root.".to_string()));
    assert_eq!(path._move(Direction::Down, &map), None);
    assert_eq!(path.node(), Index(1));
    assert_eq!(path._move(Direction::Down, &map), Some("Current node has no children.".to_string()));
    assert_eq!(path._move(Direction::Prev, &map), Some("Direction Prev not implemented yet.".to_string()));
    assert_eq!(path._move(Direction::Up, &map), None);
    assert_eq!(path.node(), root);
    let s = Segment::root(Index(4));
    assert_eq!(s.node, Index(4));
    assert_eq!(s.sibling_index, 0);
    assert_eq!(Segment::new(Index(1), 3).sibling_index, 3);
}

#[test]
fn persistent_store() {
    let p: Persistent<JSON> = Persistent::new();
    assert_eq!(p.root(), Ref::new(0));
    assert!(p.get_node(Ref::new(0)).is_some());
    assert!(p.get_node(Ref::new(1)).is_none());
    assert_eq!(Ref::new(5).as_usize(), 5);
}

#[test]
fn spec_tree() {
    let map = TestJSON::Array(vec![TestJSON::True]).build_node_map();
    let mut spec = Spec::from_tree(map);
    assert_eq!(spec.root(), Index(2));
    assert_eq!(spec.cursor(), Index(2));
    let mut s = String::new();
    spec.write_text(&mut s, &sapling::ast_spec::json::JSONFormat::Compact);
    assert_eq!(s, "[true]");
    spec.replace_cursor(JSON::False);
    assert_eq!(spec.get_node(Index(2)).unwrap().display_name(), "false");
    let empty = Spec::new();
    assert_eq!(empty.root(), Index(0));
    let _m: VecNodeMap<JSON> = VecNodeMap::with_root(JSON::True);
}

#[test]
fn dag_file_text_and_checks() {
    let arena = Arena::new();
    let t = TestJson::Array(vec![TestJson::True, TestJson::Array(vec![TestJson::Null])]);
    let root = t.add_to_arena(&arena);
    let mut dag = DAG::new(&arena, root);
    assert_eq!(dag.file_text(&JsonFormat::Compact), Some("[true, [null]]\n".to_string()));
    assert_eq!(
        dag.file_text(&JsonFormat::Pretty),
        Some("[\n    true,\n    [\n        null\n    ]\n]\n".to_string())
    );
    assert_eq!(root.try_to_text(&JsonFormat::Compact), Some("[true, [null]]".to_string()));
    assert!(dag.has_history_room());
    // The root can't be deleted
    assert!(!dag.can_delete_cursor());
    assert_eq!(dag.move_cursor(Direction::Down), None);
    // `true` has a sibling, and can be deleted too
    assert!(dag.can_delete_cursor());
    assert_eq!(dag.move_cursor(Direction::Next), None);
    assert_eq!(dag.move_cursor(Direction::Down), None);
    // `null` is the only child of its parent
    assert!(dag.can_delete_cursor());
    assert_eq!(dag.delete_cursor(), Ok(()));
    assert_eq!(dag.to_text(&JsonFormat::Compact), "[true, []]");
}
