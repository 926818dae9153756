use sapling::ast_spec::json::{JSONFormat, JSON};
use sapling::ast_spec::test_json::TestJSON;
use sapling::ast_spec::vec_node_map::{Index, VecNodeMap};

/// None-generic version of [`TestJSON::build_node_map`] that always returns a [`VecNodeMap`].
fn build_vec_node_map(tree: &TestJSON) -> VecNodeMap<JSON> {
    tree.build_node_map()
}

#[test]
fn to_text_compact() {
    for (tree, expected_string) in &[
        (TestJSON::True, "true"),
        (TestJSON::False, "false"),
        (TestJSON::Array(vec![]), "[]"),
        (TestJSON::Object(vec![]), "{}"),
        (TestJSON::Array(vec![TestJSON::True, TestJSON::False]), "[true, false]"),
        (
            TestJSON::Object(vec![
                ("foo".to_string(), TestJSON::True),
                ("bar".to_string(), TestJSON::False),
            ]),
            r#"{"foo": true, "bar": false}"#,
        ),
        (
            TestJSON::Array(vec![
                TestJSON::Object(vec![
                    (
                        "foos".to_string(),
                        TestJSON::Array(vec![TestJSON::False, TestJSON::True, TestJSON::False]),
                    ),
                    ("bar".to_string(), TestJSON::False),
                ]),
                TestJSON::True,
            ]),
            r#"[{"foos": [false, true, false], "bar": false}, true]"#,
        ),
    ] {
        assert_eq!(build_vec_node_map(tree).to_text(&JSONFormat::Compact), *expected_string);
    }
}

#[test]
fn to_text_pretty() {
    for (tree, expected_string) in &[
        (TestJSON::True, "true"),
        (TestJSON::False, "false"),
        (TestJSON::Array(vec![]), "[]"),
        (TestJSON::Object(vec![]), "{}"),
        (
            TestJSON::Array(vec![TestJSON::True, TestJSON::False]),
            "[
    true,
    false
]",
        ),
        (
            TestJSON::Object(vec![
                ("foo".to_string(), TestJSON::True),
                ("bar".to_string(), TestJSON::False),
            ]),
            r#"{
    "foo": true,
    "bar": false
}"#,
        ),
        (
            TestJSON::Array(vec![
                TestJSON::Object(vec![
                    (
                        "foos".to_string(),
                        TestJSON::Array(vec![TestJSON::False, TestJSON::True, TestJSON::False]),
                    ),
                    ("bar".to_string(), TestJSON::False),
                ]),
                TestJSON::True,
            ]),
            r#"[
    {
        "foos": [
            false,
            true,
            false
        ],
        "bar": false
    },
    true
]"#,
        ),
    ] {
        assert_eq!(build_vec_node_map(tree).to_text(&JSONFormat::Pretty), *expected_string);
    }
}

#[test]
fn node_map_basics() {
    let mut map = VecNodeMap::with_root(JSON::True);
    assert_eq!(map.root(), Index(0));
    let f = map.add_node(JSON::False);
    assert_eq!(f, Index(1));
    assert!(map.set_root(f));
    assert!(!map.set_root(Index(7)));
    assert_eq!(map.root(), Index(1));
    assert!(map.get_node(Index(2)).is_none());
    assert!(map.overwrite_node(Index(0), JSON::Str("s".to_string())));
    assert!(!map.overwrite_node(Index(9), JSON::True));
    assert_eq!(map.get_node(Index(0)).unwrap().display_name(), "\"s\"");
    let arr = map.add_as_root(JSON::Array(vec![Index(0), Index(1)]));
    assert_eq!(arr, Index(2));
    assert_eq!(map.to_text(&JSONFormat::Compact), "[\"s\", false]");
    assert_eq!(Index::from(3usize).as_usize(), 3);
}

#[test]
fn node_chars_and_names() {
    let arr = JSON::Array(vec![]);
    assert_eq!(arr.replace_chars(), vec!['t', 'f', 'a', 'o', 's']);
    assert_eq!(arr.insert_chars(), vec!['t', 'f', 'a', 'o', 's']);
    assert_eq!(JSON::Object(vec![]).insert_chars(), vec!['i']);
    assert!(JSON::True.insert_chars().is_empty());
    assert!(arr.from_char('i').is_none());
    assert_eq!(arr.from_char('o').unwrap().display_name(), "object");
    assert_eq!(JSON::Field(Index(0), Index(1)).children(), vec![Index(0), Index(1)]);
}

#[test]
fn writes_any_node_map() {
    // The root comes first and refers to a node added after it, and to no node at all
    let mut map = VecNodeMap::with_root(JSON::Array(vec![Index(1), Index(5)]));
    assert_eq!(map.add_node(JSON::True), Index(1));
    assert_eq!(map.to_text(&JSONFormat::Compact), "[true, <INVALID REF Index(5)>]");
    assert_eq!(
        map.to_text(&JSONFormat::Pretty),
        "[\n    true,\n    <INVALID REF Index(5)>\n]"
    );
    // A node overwritten with one that refers to later nodes still renders
    assert!(map.overwrite_node(Index(1), JSON::Field(Index(2), Index(3))));
    map.add_node(JSON::Str("k".to_string()));
    map.add_node(JSON::False);
    assert_eq!(map.to_text(&JSONFormat::Compact), "[\"k\": false, <INVALID REF Index(5)>]");
}

#[test]
fn pretty_text_keeps_any_indentation() {
    let mut map = VecNodeMap::with_root(JSON::True);
    let t = map.add_node(JSON::True);
    let node = JSON::Object(vec![t]);
    let mut s = "> ".to_string();
    node.write_text(&map, &mut s, &JSONFormat::Pretty);
    assert_eq!(s, "> {\n    true\n}");
}
