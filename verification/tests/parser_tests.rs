use sapling::grammar::{Grammar, TokenId, TypeId};
use sapling::grammar_spec::{self, SpecGrammar, Whitespace};
use sapling::parser::{parse, parse_tokens, read_tokens, ParseError};
use sapling::syntax::Tree;
use sapling::tokenizer::{ParsedToken, TokenizeError, Tokenizer};

fn pattern(children: &[&str], pattern: Option<Vec<grammar_spec::PatternElement>>) -> grammar_spec::Type {
    grammar_spec::Type::Pattern {
        key: None,
        keys: Vec::new(),
        children: children.iter().map(|c| c.to_string()).collect(),
        pattern,
    }
}

fn tok(t: &str) -> grammar_spec::PatternElement {
    grammar_spec::PatternElement::Token(t.to_string())
}

fn ty(name: &str) -> grammar_spec::PatternElement {
    grammar_spec::PatternElement::Type { name: name.to_string() }
}

/// Values: `null`, numbers, and arrays of values separated by commas.
fn array_grammar() -> Grammar {
    SpecGrammar {
        root_type: "value".to_string(),
        whitespace: Whitespace::Chars(" \n".to_string()),
        types: vec![
            ("value".to_string(), pattern(&["null", "array", "number"], None)),
            ("null".to_string(), pattern(&[], Some(vec![tok("null")]))),
            (
                "array".to_string(),
                pattern(
                    &[],
                    Some(vec![
                        tok("["),
                        grammar_spec::PatternElement::Sequence {
                            pattern: vec![ty("value")],
                            delimiter: ",".to_string(),
                        },
                        tok("]"),
                    ]),
                ),
            ),
            (
                "number".to_string(),
                grammar_spec::Type::Stringy {
                    key: None,
                    keys: Vec::new(),
                    stringy: true,
                    delim_start: String::new(),
                    delim_end: String::new(),
                    default_content: "0".to_string(),
                    validity_regex: Some("-?[0-9]+".to_string()),
                    escape_rules: None,
                },
            ),
        ],
    }
    .into_grammar()
    .unwrap()
}

#[test]
fn parsed_trees_give_back_their_text() {
    let g = array_grammar();
    let source = "  [null, [null,\n 12], -3]\n";
    let (leading, root) = g.parse_root(source).unwrap();
    assert_eq!(leading, "  ");
    let tree = Tree::new(leading.to_string(), root);
    assert_eq!(tree.to_text(&g), source);
}

#[test]
fn parse_errors() {
    let g = array_grammar();
    // A sequence needs at least one value, and a delimiter must be followed by another value
    assert!(matches!(g.parse_root("[]"), Err(ParseError::Parse)));
    assert!(matches!(g.parse_root("[null,]"), Err(ParseError::Parse)));
    assert!(matches!(g.parse_root("[null"), Err(ParseError::Parse)));
    assert!(matches!(
        g.parse_root("[nul]"),
        Err(ParseError::Tokenize(TokenizeError::NoToken { start_idx: 1 }))
    ));
    // A string must make up one node, with no tokens left over
    assert!(matches!(g.parse_root("null null"), Err(ParseError::Parse)));
    assert!(matches!(g.parse_root("[null] ]"), Err(ParseError::Parse)));
    // A stringy type parses its own tokens only
    assert!(g.parse(TypeId(3), "42").is_ok());
    assert!(matches!(g.parse(TypeId(1), "42"), Err(ParseError::Parse)));
    // A container parses through the types it converts into
    assert!(parse(&g, TypeId(0), "-7").is_ok());
}

#[test]
fn parse_tokens_tries_types_in_order() {
    let g = array_grammar();
    let tokens = vec![
        (ParsedToken::Static(TokenId(1)), ""),
        (ParsedToken::Stringy(TypeId(3), "5".to_string()), ""),
        (ParsedToken::Static(TokenId(3)), ""),
    ];
    assert!(parse_tokens(&g, TypeId(0), &tokens).is_some());
    assert!(parse_tokens(&g, TypeId(1), &tokens).is_none());
    // a node that does not take every token is no parse
    assert!(parse_tokens(&g, TypeId(0), &tokens[1..].to_vec()).is_none());
    assert!(parse_tokens(&g, TypeId(0), &tokens[1..2].to_vec()).is_some());
    assert!(parse_tokens(&g, TypeId(0), &Vec::new()).is_none());
}

#[test]
fn left_recursion_runs_out_of_fuel() {
    // `sum = sum "+" | "x"` would nest forever from the first token
    let g = SpecGrammar {
        root_type: "sum".to_string(),
        whitespace: Whitespace::Chars(" \n".to_string()),
        types: vec![
            ("sum".to_string(), pattern(&["plus", "x"], None)),
            ("plus".to_string(), pattern(&[], Some(vec![ty("sum"), tok("+")]))),
            ("x".to_string(), pattern(&[], Some(vec![tok("x")]))),
        ],
    }
    .into_grammar()
    .unwrap();
    // the nesting gives up once the fuel is spent; `x + x` is no `sum`
    assert!(matches!(g.parse_root("x + x"), Err(ParseError::Parse)));
    // a text that no alternative can start with is refused
    assert!(matches!(g.parse_root("+"), Err(ParseError::Parse)));
}

#[test]
fn leftover_tokens_are_refused() {
    let g = SpecGrammar {
        root_type: "bool".to_string(),
        whitespace: Whitespace::Chars(" ".to_string()),
        types: vec![
            ("bool".to_string(), pattern(&["true", "false"], None)),
            ("true".to_string(), pattern(&[], Some(vec![tok("true")]))),
            ("false".to_string(), pattern(&[], Some(vec![tok("false")]))),
        ],
    }
    .into_grammar()
    .unwrap();
    assert!(matches!(g.parse_root("true false"), Err(ParseError::Parse)));
    assert!(g.parse_root("false ").is_ok());
}

#[test]
fn a_run_of_tokens_covers_the_text() {
    let g = SpecGrammar {
        root_type: "bool".to_string(),
        whitespace: Whitespace::Chars(" \n".to_string()),
        types: vec![
            ("bool".to_string(), pattern(&["true", "false"], None)),
            ("true".to_string(), pattern(&[], Some(vec![tok("true")]))),
            ("false".to_string(), pattern(&[], Some(vec![tok("false")]))),
        ],
    }
    .into_grammar()
    .unwrap();
    let s = "  true \n false true";
    let (lead, mut t) = Tokenizer::new(&g, s);
    let mut rebuilt = lead.to_string();
    let mut n = 0;
    while let Some(r) = t.next() {
        match r.unwrap() {
            (ParsedToken::Static(id), ws) => {
                assert!(ws.chars().all(|c| c == ' ' || c == '\n'));
                rebuilt.push_str(g.token_text(id));
                rebuilt.push_str(ws);
            }
            other => panic!("unexpected {:?}", other),
        }
        n += 1;
    }
    assert_eq!(n, 3);
    assert_eq!(lead, "  ");
    assert_eq!(rebuilt, s);
}

#[test]
fn read_tokens_rebuilds_the_text() {
    let g = SpecGrammar {
        root_type: "bool".to_string(),
        whitespace: Whitespace::Chars(" \n".to_string()),
        types: vec![
            ("bool".to_string(), pattern(&["true", "false"], None)),
            ("true".to_string(), pattern(&[], Some(vec![tok("true")]))),
            ("false".to_string(), pattern(&[], Some(vec![tok("false")]))),
        ],
    }
    .into_grammar()
    .unwrap();
    let s = "\n true  false\ntrue ";
    let (lead, toks) = read_tokens(&g, s).unwrap().unwrap();
    assert_eq!(lead, "\n ");
    let mut rebuilt = lead.to_string();
    for (t, ws) in &toks {
        match t {
            ParsedToken::Static(id) => {
                rebuilt.push_str(g.token_text(*id));
                rebuilt.push_str(ws);
            }
            other => panic!("unexpected {:?}", other),
        }
    }
    assert_eq!(toks.len(), 3);
    assert_eq!(rebuilt, s);
    // a string with no token where one must start is an error
    assert!(matches!(read_tokens(&g, "true x"), Some(Err(TokenizeError::NoToken { start_idx: 5 }))));
}
