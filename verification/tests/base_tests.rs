use sapling::arena::Arena;
use sapling::ast::test_json::TestJson;
use sapling::base::{Path, Side, Size};

#[test]
fn from_str() {
    for (string, lines, last_line_length) in &[
        ("", 0, 0),
        ("true", 0, 4),
        ("false", 0, 5),
        ("\n", 1, 0),
        ("\n,", 1, 1),
        ("Some text\n", 1, 0),
        ("{\n   true\n},", 2, 2),
    ] {
        assert_eq!(Size::from(*string), Size::new(*lines, *last_line_length));
    }
}

#[test]
fn add() {
    let tests: &[&[&str]] = &[
        &["[", "]"],
        &["[", "true", "]"],
        &["[\n    ", "true", ",\n    ", "false", "\n]"],
        &["\n\t\r", "bang", "\n\n\n\n last line here!\r"],
    ];
    for strings in tests {
        let mut total_size_add = Size::new(0, 0);
        let mut total_size_add_assign = Size::new(0, 0);
        let mut full_string = String::new();
        for s in *strings {
            total_size_add = total_size_add + Size::from(*s);
            total_size_add_assign += Size::from(*s);
            full_string.push_str(s);
        }
        assert_eq!(total_size_add, Size::from(full_string.as_str()));
        assert_eq!(total_size_add_assign, Size::from(full_string.as_str()));
    }
}

#[test]
fn size_accessors_and_concat_law() {
    let s = Size::new(3, 7);
    assert_eq!(s.lines(), 3);
    assert_eq!(s.last_line_length(), 7);
    // A single-line size sticks onto the end of the last line
    assert_eq!(Size::new(1, 2) + Size::new(0, 5), Size::new(1, 7));
    // A multi-line size replaces the last line
    assert_eq!(Size::new(1, 2) + Size::new(2, 5), Size::new(3, 5));
    // The empty size is the identity
    assert_eq!(Size::new(0, 0) + Size::new(4, 1), Size::new(4, 1));
    assert_eq!(Size::new(4, 1) + Size::new(0, 0), Size::new(4, 1));
}

#[test]
fn side_relational_word() {
    assert_eq!(Side::Prev.relational_word(), "before");
    assert_eq!(Side::Next.relational_word(), "after");
}

#[test]
fn is_root() {
    // A path that's created as a root is ... a root!
    let mut path = Path::root();
    assert!(path.is_root());
    // Moving to any child stops it being a root
    path.push(0);
    assert!(!path.is_root());
    // Pushing more children means it still isn't a root
    path.push(4);
    assert!(!path.is_root());
    // If we pop *one* child, we're still not back at the root
    assert_eq!(path.pop(), Some(4));
    assert!(!path.is_root());
    // But if we pop the last child, we get back to the root
    assert_eq!(path.pop(), Some(0));
    assert!(path.is_root());
}

#[test]
fn last_and_last_mut() {
    // A path that's pointing to the root has no last
    let mut path = Path::root();
    assert_eq!(path.last(), None);
    assert_eq!(path.last_mut(), None);
    // If we push an index, then that should be that 'last'
    path.push(0);
    assert_eq!(path.last(), Some(0));
    assert_eq!(path.last_mut().copied(), Some(0));
    // If we change the last bit of the path, then `path.last()` should also change
    *path.last_mut().unwrap() = 5;
    assert_eq!(path.last(), Some(5));
    assert_eq!(path.last_mut().copied(), Some(5));
    // Push some more
    path.push(3);
    assert_eq!(path.last(), Some(3));
    assert_eq!(path.last_mut().copied(), Some(3));
    // Pop the last thing
    assert_eq!(path.pop(), Some(3));
    assert_eq!(path.last(), Some(5));
    assert_eq!(path.last_mut().copied(), Some(5));
    // Pop to the root
    assert_eq!(path.pop(), Some(5));
    assert_eq!(path.last(), None);
    assert_eq!(path.last_mut(), None);
}

#[test]
fn depth() {
    // A path that's created as a root is ... a root!
    let mut path = Path::root();
    assert_eq!(path.depth(), 0);
    // Moving to any child stops it being a root
    path.push(0);
    assert_eq!(path.depth(), 1);
    // Pushing more children means it still isn't a root
    path.push(4);
    assert_eq!(path.depth(), 2);
    // If we pop *one* child, we're still not back at the root
    assert_eq!(path.pop(), Some(4));
    assert_eq!(path.depth(), 1);
    // But if we pop the last child, we get back to the root
    assert_eq!(path.pop(), Some(0));
    assert_eq!(path.depth(), 0);
}

#[test]
fn path_iter_and_from_vec() {
    let path = Path::from_vec(vec![2, 0, 1]);
    assert_eq!(path.iter().copied().collect::<Vec<usize>>(), vec![2, 0, 1]);
    assert_eq!(path.clone().depth(), 3);
}

/// The tree `[true, false, {"value": true}]`
fn test_tree() -> TestJson {
    TestJson::Array(vec![
        TestJson::True,
        TestJson::False,
        TestJson::Object(vec![("value".to_string(), TestJson::True)]),
    ])
}

#[test]
fn node_iter() {
    // Create some test Json and add it to an arena
    let arena = Arena::new();
    let tree = test_tree();
    let root = tree.add_to_arena(&arena);
    // Create a path to the root, and test properties of it
    let mut path = Path::root();
    let nodes = path.node_iter(root);
    assert_eq!(nodes.len(), 1);
    assert!(std::ptr::eq(nodes[0], root));
    // Move the path to the 2nd ('1th') child (which is 'false')
    path.push(1);
    assert_eq!(
        path.node_iter(root).iter().map(|x| x.display_name()).collect::<Vec<_>>(),
        vec!["array".to_string(), "false".to_string()]
    );
    // Move to the ':' field object
    *path.last_mut().unwrap() = 2;
    path.push(0);
    assert_eq!(
        path.node_iter(root).iter().map(|x| x.display_name()).collect::<Vec<_>>(),
        vec!["array".to_string(), "object".to_string(), "field".to_string()]
    );
    // Move down to the 'true' in the object
    path.push(1);
    assert_eq!(
        path.node_iter(root).iter().map(|x| x.display_name()).collect::<Vec<_>>(),
        vec![
            "array".to_string(),
            "object".to_string(),
            "field".to_string(),
            "true".to_string()
        ]
    );
    // Pop back up two levels to the object
    assert_eq!(path.pop(), Some(1));
    assert_eq!(path.pop(), Some(0));
    assert_eq!(
        path.node_iter(root).iter().map(|x| x.display_name()).collect::<Vec<_>>(),
        vec!["array".to_string(), "object".to_string(),]
    );
}

#[test]
fn cursor() {
    // Create some test Json and add it to an arena
    let arena = Arena::new();
    let tree = test_tree();
    let root = tree.add_to_arena(&arena);
    // Create a path to the root, and check that the cursor is the root
    let mut path = Path::root();
    assert!(std::ptr::eq(path.cursor(root), root));
    // Move down to the 'false' object
    path.push(1);
    assert_eq!(path.cursor(root).display_name(), "false");
    // Move to the ':' field object
    *path.last_mut().unwrap() = 2;
    path.push(0);
    assert_eq!(path.cursor(root).display_name(), "field");
    // Move down to the 'true' in the object
    path.push(1);
    assert_eq!(path.cursor(root).display_name(), "true");
}

#[test]
fn cursor_and_parent() {
    // Create some test Json and add it to an arena
    let arena = Arena::new();
    let tree = test_tree();
    let root = tree.add_to_arena(&arena);
    // Create a path to the root.  The root has no parent
    let mut path = Path::root();
    let (c, p) = path.cursor_and_parent(root);
    assert!(std::ptr::eq(c, root));
    assert!(p.is_none());
    // Move down to the 'false' object.  Now the parent is the root
    path.push(1);
    let (c, p) = path.cursor_and_parent(root);
    assert_eq!(c.display_name(), "false");
    assert!(std::ptr::eq(p.unwrap(), root));
    // Move to the ':' field object, whos parent is an 'object'
    *path.last_mut().unwrap() = 2;
    path.push(0);
    let (c, p) = path.cursor_and_parent(root);
    assert_eq!(c.display_name(), "field");
    assert_eq!(p.unwrap().display_name(), "object");
    // Move down to the 'true' in the object
    path.push(1);
    let (c, p) = path.cursor_and_parent(root);
    assert_eq!(c.display_name(), "true");
    assert_eq!(p.unwrap().display_name(), "field");
}
