use bimap::BiHashMap;
use sapling::grammar::{EscapeRules, PatternElement, TokenId, TypeId, TypeInner};
use sapling::grammar_spec::convert::{ConvertError, TokenMap, TypeMap};
use sapling::grammar_spec::{self, SpecGrammar, Whitespace};
use sapling::tokenizer::{ParsedToken, Tokenizer};

fn pattern(children: &[&str], pattern: Option<Vec<grammar_spec::PatternElement>>) -> grammar_spec::Type {
    grammar_spec::Type::Pattern {
        key: None,
        keys: Vec::new(),
        children: children.iter().map(|c| c.to_string()).collect(),
        pattern,
    }
}

fn tok(t: &str) -> grammar_spec::PatternElement {
    grammar_spec::PatternElement::Token(t.to_string())
}

fn ty(name: &str) -> grammar_spec::PatternElement {
    grammar_spec::PatternElement::Type { name: name.to_string() }
}

fn stringy(
    key: Option<&str>,
    delim: &str,
    validity_regex: Option<&str>,
    escape_rules: Option<EscapeRules>,
) -> grammar_spec::Type {
    grammar_spec::Type::Stringy {
        key: key.map(|k| k.to_string()),
        keys: vec!["q".to_string()],
        stringy: true,
        delim_start: delim.to_string(),
        delim_end: delim.to_string(),
        default_content: String::new(),
        validity_regex: validity_regex.map(|r| r.to_string()),
        escape_rules,
    }
}

fn json_spec(root: &str, whitespace: &str) -> SpecGrammar {
    let mut rules = BiHashMap::new();
    rules.insert("\"".to_string(), "\"".to_string());
    rules.insert("n".to_string(), "\n".to_string());
    let escapes = EscapeRules { start_sequence: "\\".to_string(), rules, unicode_hex_4: None };
    SpecGrammar {
        root_type: root.to_string(),
        whitespace: Whitespace::Chars(whitespace.to_string()),
        types: vec![
            ("value".to_string(), pattern(&["null", "array", "number", "string"], None)),
            ("null".to_string(), pattern(&[], Some(vec![tok("null")]))),
            (
                "array".to_string(),
                pattern(
                    &[],
                    Some(vec![
                        tok("["),
                        grammar_spec::PatternElement::Sequence {
                            pattern: vec![ty("value")],
                            delimiter: ",".to_string(),
                        },
                        tok("]"),
                    ]),
                ),
            ),
            ("number".to_string(), stringy(Some("n"), "", Some("-?[0-9]+"), None)),
            ("string".to_string(), stringy(None, "\"", None, Some(escapes))),
        ],
    }
}

#[test]
fn converts_a_json_grammar() {
    let g = json_spec("value", " \n\t").into_grammar().unwrap();
    assert_eq!(g.root_type(), TypeId(0));
    assert_eq!(g.num_tokens(), 4);
    let texts: Vec<&str> = (0..4).map(|i| g.token_text(TokenId(i))).collect();
    assert_eq!(texts, vec!["null", "[", ",", "]"]);
    assert!(g.whitespace().is('\t') && g.whitespace().is(' ') && !g.whitespace().is('x'));
    let value = g.get_type(TypeId(0));
    assert_eq!(value.name(), "value");
    assert!(matches!(value.inner(), TypeInner::Container));
    assert_eq!(value.all_descendants, vec![TypeId(0), TypeId(1), TypeId(2), TypeId(3), TypeId(4)]);
    assert_eq!(value.parseable_descendants(), &vec![TypeId(1), TypeId(2), TypeId(3), TypeId(4)]);
    match g.get_type(TypeId(2)).inner() {
        TypeInner::Pattern(p) => {
            assert_eq!(p.len(), 3);
            assert!(matches!(p[0], PatternElement::Token(TokenId(1))));
            match &p[1] {
                PatternElement::Sequence { pattern, delimiter } => {
                    assert_eq!(*delimiter, TokenId(2));
                    assert!(matches!(pattern[..], [PatternElement::Type(TypeId(0))]));
                }
                _ => panic!("expected a sequence"),
            }
            assert!(matches!(p[2], PatternElement::Token(TokenId(3))));
        }
        _ => panic!("expected a pattern"),
    }
    let number = g.get_type(TypeId(3));
    assert_eq!(number.keys, vec!["q".to_string(), "n".to_string()]);
    match number.inner() {
        TypeInner::Stringy(st) => {
            let rs = st.regexes.as_ref().unwrap();
            assert_eq!(rs.unanchored.as_str(), "(?x: -?[0-9]+ )");
            assert_eq!(rs.anchored_start.as_str(), "^(?x: -?[0-9]+ )");
            assert_eq!(rs.anchored_both.as_str(), "^(?x: -?[0-9]+ )$");
        }
        _ => panic!("expected a stringy type"),
    }
    assert_eq!(g.get_type_name(TypeId(4)), "string");
    assert_eq!(g.get_type(TypeId(4)).parseable_descendants(), &vec![TypeId(4)]);
}

#[test]
fn a_converted_grammar_tokenizes() {
    let g = json_spec("value", " \n").into_grammar().unwrap();
    let (leading, mut t) = Tokenizer::new(&g, " [null,\n-12, \"a\\\"\"]");
    assert_eq!(leading, " ");
    let mut toks = Vec::new();
    while let Some(r) = t.next() {
        let (tok, ws) = r.unwrap();
        toks.push((tok, ws.to_string()));
    }
    assert_eq!(
        toks,
        vec![
            (ParsedToken::Static(TokenId(1)), String::new()),
            (ParsedToken::Static(TokenId(0)), String::new()),
            (ParsedToken::Static(TokenId(2)), "\n".to_string()),
            (ParsedToken::Stringy(TypeId(3), "-12".to_string()), String::new()),
            (ParsedToken::Static(TokenId(2)), " ".to_string()),
            (ParsedToken::Stringy(TypeId(4), "a\"".to_string()), String::new()),
            (ParsedToken::Static(TokenId(3)), String::new()),
        ]
    );
}

#[test]
fn conversion_errors() {
    match json_spec("root", " ").into_grammar() {
        Err(ConvertError::UnknownRootType(n)) => assert_eq!(n, "root"),
        other => panic!("unexpected {:?}", other.map(|_| ())),
    }
    // A single char parses to a literal of that char, which gives the set of that char
    let g = json_spec("value", " ").into_grammar().unwrap();
    assert!(g.whitespace().is(' ') && !g.whitespace().is('\n'));
    // Text that closes the class and opens another is no class of chars
    match json_spec("value", "a]b[c").into_grammar() {
        Err(ConvertError::NotACharClass { source_str, regex_str }) => {
            assert_eq!(source_str, "a]b[c");
            assert_eq!(regex_str, "[a]b[c]");
        }
        other => panic!("unexpected {:?}", other.map(|_| ())),
    }
    match json_spec("value", "\\").into_grammar() {
        Err(ConvertError::CharSet { source_str, regex_str, .. }) => {
            assert_eq!(source_str, "\\");
            assert_eq!(regex_str, "[\\]");
        }
        other => panic!("unexpected {:?}", other.map(|_| ())),
    }
    let mut spec = json_spec("value", " \n");
    spec.types[1].1 = pattern(&[], Some(vec![ty("nothing")]));
    match spec.into_grammar() {
        Err(ConvertError::UnknownChildType { name, parent_name }) => {
            assert_eq!(name, "nothing");
            assert_eq!(parent_name, "null");
        }
        other => panic!("unexpected {:?}", other.map(|_| ())),
    }
    let mut spec = json_spec("value", " \n");
    spec.types[0].1 = pattern(&["null", "nobody"], None);
    match spec.into_grammar() {
        Err(ConvertError::UnknownChildType { name, parent_name }) => {
            assert_eq!(name, "nobody");
            assert_eq!(parent_name, "value");
        }
        other => panic!("unexpected {:?}", other.map(|_| ())),
    }
    let mut spec = json_spec("value", " \n");
    spec.types[3].1 = stringy(None, "", Some("(unclosed"), None);
    match spec.into_grammar() {
        Err(ConvertError::Regex { name_of_type, regex, .. }) => {
            assert_eq!(name_of_type, "number");
            assert_eq!(regex, "(?x: (unclosed )");
        }
        other => panic!("unexpected {:?}", other.map(|_| ())),
    }
}

#[test]
fn type_cycles_are_reported() {
    let spec = SpecGrammar {
        root_type: "a".to_string(),
        whitespace: Whitespace::Chars(" \n".to_string()),
        types: vec![
            ("a".to_string(), pattern(&["b"], None)),
            ("b".to_string(), pattern(&["c"], None)),
            ("c".to_string(), pattern(&["b"], None)),
        ],
    };
    match spec.into_grammar() {
        Err(ConvertError::TypeCycle(names)) => assert_eq!(names, vec!["b", "c", "b"]),
        other => panic!("unexpected {:?}", other.map(|_| ())),
    }
}

#[test]
fn shared_descendants_are_listed_once() {
    let spec = SpecGrammar {
        root_type: "a".to_string(),
        whitespace: Whitespace::Chars(" \n".to_string()),
        types: vec![
            ("a".to_string(), pattern(&["b", "c"], None)),
            ("b".to_string(), pattern(&["d"], None)),
            ("c".to_string(), pattern(&["d"], None)),
            ("d".to_string(), pattern(&[], Some(vec![tok("x")]))),
        ],
    };
    let g = spec.into_grammar().unwrap();
    assert_eq!(g.get_type(TypeId(0)).all_descendants, vec![TypeId(0), TypeId(1), TypeId(3), TypeId(2)]);
    assert_eq!(g.get_type(TypeId(0)).parseable_descendants(), &vec![TypeId(3)]);
}

#[test]
fn token_and_type_maps() {
    let mut m = TokenMap::new();
    assert_eq!(m.get_id("a".to_string()), TokenId(0));
    assert_eq!(m.get_id("b".to_string()), TokenId(1));
    assert_eq!(m.get_id("a".to_string()), TokenId(0));
    let tokens = m.into_vec();
    assert_eq!(tokens.len(), 2);
    assert_eq!(tokens[1].text(), "b");
    let (types, tm) = TypeMap::new(vec![
        ("x".to_string(), pattern(&[], None)),
        ("y".to_string(), pattern(&[], None)),
    ]);
    assert_eq!(types.len(), 2);
    assert_eq!(tm.get(&"y".to_string(), &"x".to_string()).unwrap(), TypeId(1));
    assert!(matches!(tm.get_root(&"z".to_string()), Err(ConvertError::UnknownRootType(_))));
}
