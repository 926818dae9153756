use sapling::tokenizer::str_iter::StrIter;
use sapling::tokenizer::BadUnicodeEscapeError;

#[test]
fn next_char_gives_byte_indices() {
    let mut iter = StrIter::new("aé€😀b");
    assert_eq!(iter.next_char(), Some((0, 'a')));
    assert_eq!(iter.next_char(), Some((1, 'é')));
    assert_eq!(iter.next_char(), Some((3, '€')));
    assert_eq!(iter.next_char(), Some((6, '😀')));
    assert_eq!(iter.consumed_length(), 10);
    assert!(!iter.is_done());
    assert_eq!(iter.next_char(), Some((10, 'b')));
    assert!(iter.is_done());
    assert_eq!(iter.next_char(), None);
    assert_eq!(iter.consumed_length(), 11);
    assert_eq!(iter.source_str(), "aé€😀b");
    assert_eq!(iter.str_remaining(), "");
}

#[test]
fn eat_prefixes() {
    let mut iter = StrIter::new("true, false");
    assert!(!iter.eat("false"));
    assert_eq!(iter.consumed_length(), 0);
    assert!(iter.eat("true"));
    assert_eq!(iter.str_remaining(), ", false");
    assert!(iter.eat(""));
    assert!(iter.eat(", "));
    assert!(!iter.eat("falsehood"));
    assert!(iter.eat("false"));
    assert!(iter.is_done());
}

#[test]
fn eat_len_respects_char_boundaries() {
    let mut iter = StrIter::new("é!");
    // The first char takes two bytes, so one byte ends inside it
    assert_eq!(iter.eat_len(1), None);
    assert_eq!(iter.consumed_length(), 0);
    assert_eq!(iter.eat_len(4), None);
    assert_eq!(iter.eat_len(2), Some("é"));
    assert_eq!(iter.consumed_length(), 2);
    assert_eq!(iter.eat_len(1), Some("!"));
    assert_eq!(iter.eat_len(0), Some(""));
    assert!(iter.is_done());
}

#[test]
fn take_chars_while_stops_at_first_failure() {
    let mut iter = StrIter::new("   \t x  y");
    assert_eq!(iter.take_chars_while(|c| c == ' ' || c == '\t'), "   \t ");
    assert_eq!(iter.str_remaining(), "x  y");
    assert_eq!(iter.take_chars_while(|c| c == ' '), "");
    assert_eq!(iter.next_char(), Some((5, 'x')));
    assert_eq!(iter.take_chars_while(|_| true), "  y");
    assert!(iter.is_done());
}

#[test]
fn eat_numeral_results() {
    let mut iter = StrIter::new("00e9D800zzzz12");
    assert_eq!(iter.eat_numeral(4, 16).unwrap(), 'é');
    match iter.eat_numeral(4, 16) {
        Err(BadUnicodeEscapeError::NoSuchChar(0xD800)) => {}
        other => panic!("unexpected {:?}", other),
    }
    match iter.eat_numeral(4, 16) {
        Err(BadUnicodeEscapeError::IntParse(text, _)) => assert_eq!(text, "zzzz"),
        other => panic!("unexpected {:?}", other),
    }
    match iter.eat_numeral(4, 16) {
        Err(BadUnicodeEscapeError::SliceFailed) => {}
        other => panic!("unexpected {:?}", other),
    }
    assert_eq!(iter.eat_numeral(2, 10).unwrap(), '\u{c}');
    assert!(iter.is_done());
}

use bimap::BiHashMap;
use sapling::char_set::CharSet;
use sapling::grammar::{
    CompiledRegex, EscapeRules, Grammar, Regexes, Stringy, Token, TokenId, Type, TypeId, TypeInner, Whitespace,
};
use sapling::tokenizer::{eat_regex_match, eat_stringy, TokenizeError, ParsedToken, Tokenizer};

fn ty(name: &str, inner: TypeInner) -> Type {
    Type {
        name: name.to_string(),
        keys: Vec::new(),
        all_descendants: Vec::new(),
        parseable_descendants: Vec::new(),
        inner,
    }
}

fn number_regexes() -> Regexes {
    Regexes {
        unanchored: CompiledRegex::new("(?x: -?[0-9]+ )").unwrap(),
        anchored_start: CompiledRegex::new("^(?x: -?[0-9]+ )").unwrap(),
        anchored_both: CompiledRegex::new("^(?x: -?[0-9]+ )$").unwrap(),
    }
}

/// A JSON-like grammar: strings (type 1), numbers (type 2), comments (type 3) and the static
/// tokens `true false null [ ] , 12`.
fn json_grammar() -> Grammar {
    let mut rules = BiHashMap::new();
    rules.insert("\"".to_string(), "\"".to_string());
    rules.insert("\\".to_string(), "\\".to_string());
    rules.insert("n".to_string(), "\n".to_string());
    let string = Stringy {
        delim_start: "\"".to_string(),
        delim_end: "\"".to_string(),
        regexes: None,
        default_content: String::new(),
        escape_rules: Some(EscapeRules {
            start_sequence: "\\".to_string(),
            rules,
            unicode_hex_4: Some("u".to_string()),
        }),
    };
    let number = Stringy {
        delim_start: String::new(),
        delim_end: String::new(),
        regexes: Some(number_regexes()),
        default_content: "0".to_string(),
        escape_rules: None,
    };
    let comment = Stringy {
        delim_start: "/*".to_string(),
        delim_end: "*/".to_string(),
        regexes: None,
        default_content: String::new(),
        escape_rules: None,
    };
    let types = vec![
        ty("value", TypeInner::Container),
        ty("string", TypeInner::Stringy(string)),
        ty("number", TypeInner::Stringy(number)),
        ty("comment", TypeInner::Stringy(comment)),
    ];
    let tokens = ["true", "false", "null", "[", "]", ",", "12"]
        .iter()
        .map(|t| Token::new(t.to_string()))
        .collect();
    Grammar::new(TypeId(0), Whitespace::from(CharSet::from_chars(&vec![' ', '\n'])), types, tokens)
}

/// Reads every token of `s`, stopping at the first error.
fn tokens_of(g: &Grammar, s: &str) -> (String, Vec<(ParsedToken, String)>, Option<TokenizeError>) {
    let (leading, mut t) = Tokenizer::new(g, s);
    let mut out = Vec::new();
    loop {
        match t.next() {
            None => return (leading.to_string(), out, None),
            Some(Ok((tok, ws))) => out.push((tok, ws.to_string())),
            Some(Err(e)) => return (leading.to_string(), out, Some(e)),
        }
    }
}

fn stat(id: usize, ws: &str) -> (ParsedToken, String) {
    (ParsedToken::Static(TokenId(id)), ws.to_string())
}

fn stringy(ty: usize, contents: &str, ws: &str) -> (ParsedToken, String) {
    (ParsedToken::Stringy(TypeId(ty), contents.to_string()), ws.to_string())
}

#[test]
fn tokenizes_a_json_array() {
    let g = json_grammar();
    let (leading, toks, err) = tokens_of(&g, "  [true, \"a\\nb\\\"\" ,\n -345, null]\n");
    assert_eq!(leading, "  ");
    assert!(err.is_none());
    assert_eq!(
        toks,
        vec![
            stat(3, ""),
            stat(0, ""),
            stat(5, " "),
            stringy(1, "a\nb\"", " "),
            stat(5, "\n "),
            stringy(2, "-345", ""),
            stat(5, " "),
            stat(2, ""),
            stat(4, "\n"),
        ]
    );
}

#[test]
fn static_tokens_win_ties_with_stringy_tokens() {
    let g = json_grammar();
    // `12` is both a static token and a number of the same length: the static token wins
    let (_, toks, err) = tokens_of(&g, "12 123");
    assert!(err.is_none());
    assert_eq!(toks, vec![stat(6, " "), stringy(2, "123", "")]);
}

#[test]
fn delimited_tokens_and_unicode_escapes() {
    let g = json_grammar();
    let (_, toks, err) = tokens_of(&g, "/* a * b */\"\\u0041\\u00e9\"");
    assert!(err.is_none());
    assert_eq!(toks, vec![stringy(3, " a * b ", ""), stringy(1, "Aé", "")]);
}

#[test]
fn no_token_is_an_error_at_its_index() {
    let g = json_grammar();
    let (_, toks, err) = tokens_of(&g, "true x");
    assert_eq!(toks, vec![stat(0, " ")]);
    assert!(matches!(err, Some(TokenizeError::NoToken { start_idx: 5 })));
}

#[test]
fn tokenizing_errors() {
    let g = json_grammar();
    let (_, _, err) = tokens_of(&g, "[\"abc");
    assert!(matches!(err, Some(TokenizeError::UnfinishedStringy { start_idx: 1, type_id: TypeId(1) })));
    let (_, _, err) = tokens_of(&g, "/* abc");
    assert!(matches!(err, Some(TokenizeError::UnfinishedStringy { start_idx: 0, type_id: TypeId(3) })));
    let (_, _, err) = tokens_of(&g, "\"ab\\q\"");
    assert!(matches!(err, Some(TokenizeError::BadEscape { start_idx: 3, type_id: TypeId(1) })));
    let (_, _, err) = tokens_of(&g, "\"\\uZZZZ\"");
    assert!(matches!(
        err,
        Some(TokenizeError::BadUnicodeValue { start_idx: 1, inner: BadUnicodeEscapeError::IntParse(ref s, _), .. })
            if s == "ZZZZ"
    ));
    let (_, _, err) = tokens_of(&g, "\"\\uD800\"");
    assert!(matches!(
        err,
        Some(TokenizeError::BadUnicodeValue { inner: BadUnicodeEscapeError::NoSuchChar(0xD800), .. })
    ));
    let (_, _, err) = tokens_of(&g, "\"\\u00\"");
    assert!(matches!(
        err,
        Some(TokenizeError::BadUnicodeValue { inner: BadUnicodeEscapeError::SliceFailed, .. })
    ));
}

#[test]
fn regex_matches_are_eaten_from_the_start_only() {
    let mut iter = StrIter::new("-42abc");
    assert_eq!(eat_regex_match(&mut iter, Some((0, 3))), Some("-42".to_string()));
    assert_eq!(iter.str_remaining(), "abc");
    assert_eq!(eat_regex_match(&mut iter, Some((1, 2))), None);
    assert_eq!(eat_regex_match(&mut iter, None), None);
    assert_eq!(iter.consumed_length(), 3);
}

#[test]
fn regex_stringy_reads_from_the_start_only() {
    let number = Stringy {
        delim_start: String::new(),
        delim_end: String::new(),
        regexes: Some(number_regexes()),
        default_content: "0".to_string(),
        escape_rules: None,
    };
    // a number further on is not read
    let mut it = StrIter::new("ab12");
    assert!(matches!(eat_stringy(&mut it, &number, TypeId(2)), Ok(None)));
    assert_eq!(it.consumed_length(), 0);
    // a number at the start is read up to the end of the match
    let mut it = StrIter::new("-12ab");
    match eat_stringy(&mut it, &number, TypeId(2)) {
        Ok(Some(c)) => assert_eq!(c, "-12"),
        _ => panic!("expected a number"),
    }
    assert_eq!(it.str_remaining(), "ab");
}
