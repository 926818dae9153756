use sapling::char_set::CharSet;
use sapling::grammar::{PatternElement, Token, TokenId, TypeId, Whitespace};

#[test]
fn whitespace_membership() {
    let mut chars = CharSet::empty();
    chars.insert(' ');
    chars.insert('\n');
    chars.insert('\u{3000}');
    let ws = Whitespace::from(chars);
    assert!(ws.is(' '));
    assert!(ws.is('\n'));
    assert!(ws.is('\u{3000}'));
    assert!(!ws.is('x'));
    let sampler = ws.sampler();
    assert_eq!(sampler.sample_at(0), '\n');
    assert_eq!(sampler.sample_at(1), ' ');
    assert_eq!(sampler.sample_at(2), '\u{3000}');
}

#[test]
fn token_text() {
    let t = Token::new("=>".to_string());
    assert_eq!(t.text(), "=>");
}

#[test]
fn patterns_nest() {
    let p = PatternElement::Sequence {
        pattern: vec![PatternElement::Type(TypeId(3)), PatternElement::Token(TokenId(1))],
        delimiter: TokenId(0),
    };
    match p {
        PatternElement::Sequence { pattern, delimiter } => {
            assert_eq!(pattern.len(), 2);
            assert_eq!(delimiter, TokenId(0));
        }
        _ => panic!("expected a sequence"),
    }
}

use sapling::grammar::Grammar;
use sapling::syntax::history::History;
use sapling::syntax::{Node, NodeBuilder, Tree};
use std::rc::Rc;

fn grammar(texts: &[&str]) -> Grammar {
    let tokens = texts.iter().map(|t| Token::new(t.to_string())).collect();
    Grammar::new(TypeId(0), Whitespace::from(CharSet::from_chars(&vec![' ', '\n'])), Vec::new(), tokens)
}

#[test]
fn static_tokens_longest_first() {
    let g = grammar(&["a", "&&", "&", "||", "é"]);
    let order: Vec<(String, usize)> =
        g.static_tokens_decreasing().iter().map(|(t, id)| (t.clone(), id.0)).collect();
    // `é` takes two bytes, like `&&` and `||`; ties keep the order of the ids
    assert_eq!(
        order,
        vec![
            ("&&".to_string(), 1),
            ("||".to_string(), 3),
            ("é".to_string(), 4),
            ("a".to_string(), 0),
            ("&".to_string(), 2)
        ]
    );
    assert_eq!(g.num_tokens(), 5);
    assert_eq!(g.token_text(TokenId(3)), "||");
    assert_eq!(g.root_type(), TypeId(0));
    assert!(g.whitespace().is('\n'));
}

#[test]
fn tree_text() {
    let g = grammar(&["[", "]", ","]);
    let mut b = NodeBuilder::new(TypeId(1));
    b.add_token(TokenId(0), "");
    b.seq_start();
    b.add_node(TypeId(2), Rc::new(Node::new_stringy(TypeId(3), "x".to_string(), "\"x\"".to_string(), "")));
    b.seq_delim(TokenId(2), " ");
    b.add_node(TypeId(2), Rc::new(Node::new_stringy(TypeId(3), "y".to_string(), "\"y\"".to_string(), "")));
    b.seq_end();
    b.add_token(TokenId(1), "\n");
    let tree = Tree::new("  ".to_string(), b.into_node());
    assert_eq!(tree.to_text(&g), "  [\"x\", \"y\"]\n");
    let history = History::new(tree, 10);
    let _ = history.clone();
}
