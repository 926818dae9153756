use sapling::arena::Arena;
use sapling::ast::display_token::DisplayToken;
use sapling::ast::json::{Json, JsonFormat};
use sapling::ast::test_json::TestJson;
use sapling::ast::{DeleteError, InsertError};
use sapling::base::Size;

#[test]
fn to_text() {
    for (tree, expected_compact_string, expected_pretty_string, tree_string) in &[
        (TestJson::True, "true", "true", "true"),
        (TestJson::False, "false", "false", "false"),
        (TestJson::Array(vec![]), "[]", "[]", "array"),
        (TestJson::Object(vec![]), "{}", "{}", "object"),
        (
            TestJson::Array(vec![TestJson::True, TestJson::False]),
            "[true, false]",
            "[
    true,
    false
]",
            "array
  true
  false",
        ),
        (
            TestJson::Object(vec![
                ("foo".to_string(), TestJson::True),
                ("bar".to_string(), TestJson::False),
            ]),
            r#"{"foo": true, "bar": false}"#,
            r#"{
    "foo": true,
    "bar": false
}"#,
            r#"object
  field
    "foo"
    true
  field
    "bar"
    false"#,
        ),
        (
            TestJson::Array(vec![
                TestJson::Object(vec![
                    (
                        "foos".to_string(),
                        TestJson::Array(vec![TestJson::False, TestJson::True, TestJson::False]),
                    ),
                    ("bar".to_string(), TestJson::False),
                ]),
                TestJson::True,
            ]),
            r#"[{"foos": [false, true, false], "bar": false}, true]"#,
            r#"[
    {
        "foos": [
            false,
            true,
            false
        ],
        "bar": false
    },
    true
]"#,
            r#"array
  object
    field
      "foos"
      array
        false
        true
        false
    field
      "bar"
      false
  true"#,
        ),
    ] {
        println!("Testing {}", expected_compact_string);

        let arena = Arena::new();
        let root = tree.add_to_arena(&arena);
        // Test compact string
        let compact_string = root.to_text(&JsonFormat::Compact);
        assert_eq!(compact_string, *expected_compact_string);
        assert_eq!(root.size(&JsonFormat::Compact), Size::from(*expected_compact_string));
        // Test pretty string
        let pretty_string = root.to_text(&JsonFormat::Pretty);
        assert_eq!(pretty_string, *expected_pretty_string);
        assert_eq!(root.size(&JsonFormat::Pretty), Size::from(*expected_pretty_string));
        // Test debug tree view
        let mut s = String::new();
        root.write_tree_view(&mut s);
        assert_eq!(s, *tree_string);
        assert_eq!(root.tree_view(), *tree_string);
    }
}

#[test]
fn null_and_strings_render() {
    let arena = Arena::new();
    let tree = TestJson::Array(vec![TestJson::Null, TestJson::Str("hi\nthere".to_string())]);
    let root = tree.add_to_arena(&arena);
    assert_eq!(root.to_text(&JsonFormat::Compact), "[null, \"hi\nthere\"]");
    assert_eq!(root.size(&JsonFormat::Compact), Size::new(1, 7));
    assert_eq!(root.to_text(&JsonFormat::Pretty), "[\n    null,\n    \"hi\nthere\"\n]");
    assert_eq!(root.size(&JsonFormat::Pretty), Size::new(4, 1));
}

#[test]
fn size_does_not_depend_on_indentation() {
    // The same node has the same size wherever it sits in a tree
    let arena = Arena::new();
    let inner = TestJson::Array(vec![TestJson::True, TestJson::False]);
    let inner_root = inner.add_to_arena(&arena);
    let outer = TestJson::Array(vec![TestJson::Array(vec![TestJson::Array(vec![
        TestJson::True,
        TestJson::False,
    ])])]);
    let outer_root = outer.add_to_arena(&arena);
    let nested = outer_root.child(0).child(0);
    assert_eq!(nested.size(&JsonFormat::Pretty), inner_root.size(&JsonFormat::Pretty));
    assert_eq!(nested.size(&JsonFormat::Pretty), Size::new(3, 1));
}

#[test]
fn display_tokens_pairs_owners() {
    let arena = Arena::new();
    let tree = TestJson::Array(vec![TestJson::True]);
    let root = tree.add_to_arena(&arena);
    let toks = root.display_tokens(&JsonFormat::Pretty);
    assert_eq!(toks.len(), 7);
    assert!(std::ptr::eq(toks[0].0, root));
    assert_eq!(toks[1].1, DisplayToken::Indent);
    assert_eq!(toks[2].1, DisplayToken::Newline);
    assert!(std::ptr::eq(toks[3].0, root.child(0)));
    assert_eq!(toks[4].1, DisplayToken::Dedent);
    let rec = root.display_tokens_rec(&JsonFormat::Compact);
    assert_eq!(rec.len(), 3);
}

#[test]
fn display_names_and_chars() {
    let arena = Arena::new();
    let s = TestJson::Str("key".to_string()).add_to_arena(&arena);
    assert_eq!(s.display_name(), "\"key\"");
    assert_eq!(Json::Null.display_name(), "null");
    assert_eq!(Json::True.replace_chars(), vec!['t', 'f', 'n', 'a', 'o', 's']);
    assert!(Json::True.is_replace_char('o'));
    assert!(!Json::True.is_replace_char('x'));
    assert!(Json::True.insert_chars().is_empty());
    assert!(!Json::True.is_insert_char('t'));
    assert!(Json::Array(vec![]).is_insert_char('t'));
    assert_eq!(Json::True.from_char('n'), Some(Json::Null));
    assert_eq!(Json::True.from_char('x'), None);
    assert_eq!(Json::default(), Json::Object(vec![]));
}

#[test]
fn insert_into_array_and_object() {
    let arena = Arena::new();
    let t = arena.alloc_node(Json::True);
    // Arrays take the new node as it is
    let mut arr = Json::Array(vec![]);
    assert_eq!(arr.insert_child(t, &arena, 0), Ok(()));
    assert_eq!(arr.num_children(), 1);
    assert!(std::ptr::eq(arr.child(0), t));
    // Objects wrap it in a field with an empty key
    let mut obj = Json::Object(vec![]);
    assert_eq!(obj.insert_child(t, &arena, 0), Ok(()));
    let root = arena.alloc_node(obj);
    assert_eq!(root.to_text(&JsonFormat::Compact), "{\"\": true}");
    // Leaves and fields refuse new children
    let mut leaf = Json::False;
    assert_eq!(
        leaf.insert_child(t, &arena, 0),
        Err(InsertError::TooManyChildren { name: "false".to_string(), max_children: 0 })
    );
    let mut field = Json::Field(t, t);
    assert_eq!(
        field.insert_child(t, &arena, 0),
        Err(InsertError::TooManyChildren { name: "field".to_string(), max_children: 2 })
    );
}

#[test]
fn delete_children() {
    let arena = Arena::new();
    let t = arena.alloc_node(Json::True);
    let f = arena.alloc_node(Json::False);
    let mut arr = Json::Array(vec![t, f]);
    assert_eq!(arr.delete_child(5), Err(DeleteError::IndexOutOfRange { len: 2, index: 5 }));
    assert_eq!(arr.delete_child(0), Ok(()));
    assert_eq!(arr.num_children(), 1);
    assert!(std::ptr::eq(arr.child(0), f));
    let mut field = Json::Field(t, f);
    assert_eq!(
        field.delete_child(0),
        Err(DeleteError::TooFewChildren { name: "field".to_string(), min_children: 2 })
    );
}

#[test]
fn replace_children() {
    let arena = Arena::new();
    let tree = TestJson::Object(vec![("k".to_string(), TestJson::True)]);
    let root = tree.add_to_arena(&arena);
    let mut obj = root.clone();
    let n = arena.alloc_node(Json::Null);
    // Replacing a field only replaces its value
    obj.replace_child(n, &arena, 0);
    let obj = arena.alloc_node(obj);
    assert_eq!(obj.to_text(&JsonFormat::Compact), "{\"k\": null}");
    let mut arr = Json::Array(vec![n]);
    let t = arena.alloc_node(Json::True);
    arr.replace_child(t, &arena, 0);
    assert!(std::ptr::eq(arr.child(0), t));
}

#[test]
fn test_json_equality() {
    let arena = Arena::new();
    let tree = TestJson::Object(vec![("foo".to_string(), TestJson::Array(vec![TestJson::Null]))]);
    let root = tree.add_to_arena(&arena);
    assert!(tree.eq_json(root));
    assert!(!TestJson::Object(vec![]).eq_json(root));
    assert!(!TestJson::Object(vec![("bar".to_string(), TestJson::Array(vec![TestJson::Null]))])
        .eq_json(root));
}

#[test]
fn error_messages() {
    assert_eq!(
        DeleteError::TooFewChildren { name: "field".to_string(), min_children: 2 }.to_string(),
        "Node type field can't have fewer than 2 children."
    );
    assert_eq!(
        DeleteError::IndexOutOfRange { len: 3, index: 10 }.to_string(),
        "Deleting child index 10 is out of range 0..3"
    );
    assert_eq!(
        InsertError::TooManyChildren { name: "field".to_string(), max_children: 2 }.to_string(),
        "Can't exceed child count limit of 2 in field"
    );
}

#[test]
fn write_tokens_with_indent_restores_the_indentation() {
    let arena = Arena::new();
    let t = TestJson::Array(vec![TestJson::True, TestJson::Array(vec![TestJson::Null])]);
    let root = t.add_to_arena(&arena);
    let mut s = "x".to_string();
    let mut ind = "  ".to_string();
    root.write_tokens_with_indent(&mut s, &mut ind, &JsonFormat::Pretty);
    assert_eq!(s, "x[\n      true,\n      [\n          null\n      ]\n  ]");
    assert_eq!(ind, "  ");
    let mut s = String::new();
    root.write_tokens_with_indent(&mut s, &mut ind, &JsonFormat::Compact);
    assert_eq!(s, "[true, [null]]");
}
