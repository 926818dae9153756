//! Syntax trees which fully store the state of a text buffer (including formatting), built by
//! a grammar's parser, and the history of such trees.

pub mod history;

use std::rc::Rc;

use vstd::prelude::*;
use vstd::string::*;

use crate::grammar::{Grammar, Token, TokenId, TypeId};

verus! {

/// A syntax tree which fully stores the state of a text buffer (including formatting)
#[derive(Debug, Clone)]
pub struct Tree {
    /// The whitespace which appears before the first token in a file.  All tokens own the
    /// whitespace which comes directly after them, but there is no token to own the start of
    /// the file so we have to add that whitespace separately.
    pub(crate) leading_ws: String,
    /// The root node of the tree
    pub(crate) root: Node,
}

/// A node of a syntax tree: a sequence of tokens and sub-nodes, or a 'stringy' node with the
/// whitespace that follows it.
#[derive(Debug, Clone)]
pub enum Node {
    Tree(TreeNode),
    Stringy(StringyNode, String),
}

/// Builds the [`Node::Tree`] of a type, element by element, as a parser reads its pattern.
#[derive(Debug, Clone)]
pub struct NodeBuilder {
    type_id: TypeId,
    pattern: Vec<Elem>,
}

/// An syntax tree node which contains a sequence of tokens and sub-nodes
#[derive(Debug, Clone)]
pub struct TreeNode {
    type_id: TypeId,
    pattern: Vec<Elem>,
}

/// One element of the pattern of a [`TreeNode`].
#[derive(Debug, Clone)]
pub enum Elem {
    /// The token and any whitespace which directly follows it
    Token { token: TokenId, ws: String },
    /// This element contains a [`Node`] which stores a sub-tree.  This can be replaced with any
    /// [`Node`] whose type is a descendent of `type_bound`.
    Node { type_bound: TypeId, node: Rc<Node> },
    SeqStart,
    SeqDelim(TokenId, String),
    SeqEnd,
}

/// An syntax tree node representing a 'stringy' node.  This node cannot contain sub-nodes,
/// but instead contains an arbitrary string value that can be edited by the user.  This is
/// very useful for e.g. identifiers or string/numeric literals.
#[derive(Debug, Clone)]
pub struct StringyNode {
    type_: TypeId,
    /// The un-escaped contents of this node
    contents: String,
    /// The escaped contents of this node which should be added to the file
    display_str: String,
}

/// The value of a [`Node`]: its type and elements, or, for a stringy node, its type, its
/// contents, the text that displays them and the whitespace that follows it.
pub enum NodeView {
    Tree { type_id: TypeId, elems: Seq<ElemView> },
    Stringy { type_id: TypeId, contents: Seq<char>, display: Seq<char>, ws: Seq<char> },
}

/// The value of an [`Elem`].
pub enum ElemView {
    Token { token: TokenId, ws: Seq<char> },
    Node { type_bound: TypeId, node: Box<NodeView> },
    SeqStart,
    SeqDelim(TokenId, Seq<char>),
    SeqEnd,
}

/// The value of a node.
pub closed spec fn node_view(n: Node) -> NodeView
    decreases n,
{
    match n {
        Node::Tree(t) => NodeView::Tree { type_id: t.type_id, elems: elems_view(t.pattern@) },
        Node::Stringy(s, ws) => NodeView::Stringy {
            type_id: s.type_,
            contents: s.contents@,
            display: s.display_str@,
            ws: ws@,
        },
    }
}

/// The values of a sequence of elements.
pub closed spec fn elems_view(es: Seq<Elem>) -> Seq<ElemView>
    decreases es,
{
    if es.len() == 0 {
        Seq::empty()
    } else {
        elems_view(es.drop_last()).push(elem_view(es.last()))
    }
}

/// The value of an element.
pub closed spec fn elem_view(e: Elem) -> ElemView
    decreases e,
{
    match e {
        Elem::Token { token, ws } => ElemView::Token { token, ws: ws@ },
        Elem::Node { type_bound, node } => ElemView::Node { type_bound, node: Box::new(node_view(*node)) },
        Elem::SeqStart => ElemView::SeqStart,
        Elem::SeqDelim(token, ws) => ElemView::SeqDelim(token, ws@),
        Elem::SeqEnd => ElemView::SeqEnd,
    }
}

proof fn lemma_elems_view_push(es: Seq<Elem>, e: Elem)
    ensures
        elems_view(es.push(e)) == elems_view(es).push(elem_view(e)),
{
    assert(es.push(e).drop_last() =~= es);
}

/// The text of the node whose value is `n`: its elements one after the other, or the display
/// text of a stringy node followed by its whitespace.
pub open spec fn view_text(n: NodeView, tokens: Seq<Token>) -> Seq<char>
    decreases n,
{
    match n {
        NodeView::Tree { elems, .. } => elems_view_text(elems, tokens),
        NodeView::Stringy { display, ws, .. } => display + ws,
    }
}

/// The text of the elements whose values are `es`, one after the other.
pub open spec fn elems_view_text(es: Seq<ElemView>, tokens: Seq<Token>) -> Seq<char>
    decreases es,
{
    if es.len() == 0 {
        Seq::empty()
    } else {
        elems_view_text(es.drop_last(), tokens) + elem_view_text(es.last(), tokens)
    }
}

/// The text of the element whose value is `e`: a token's text and whitespace, or a sub-node's
/// text; the marks of a sequence have none.
pub open spec fn elem_view_text(e: ElemView, tokens: Seq<Token>) -> Seq<char>
    decreases e,
{
    match e {
        ElemView::Token { token, ws } => token_text(tokens, token, ws),
        ElemView::Node { node, .. } => view_text(*node, tokens),
        ElemView::SeqStart => Seq::empty(),
        ElemView::SeqDelim(token, ws) => token_text(tokens, token, ws),
        ElemView::SeqEnd => Seq::empty(),
    }
}

/// The text of elements one after the other is the texts of each.
pub proof fn lemma_elems_view_text_concat(a: Seq<ElemView>, b: Seq<ElemView>, tokens: Seq<Token>)
    ensures
        elems_view_text(a + b, tokens) == elems_view_text(a, tokens) + elems_view_text(b, tokens),
    decreases b.len(),
{
    if b.len() == 0 {
        assert(a + b =~= a);
    } else {
        lemma_elems_view_text_concat(a, b.drop_last(), tokens);
        assert((a + b).drop_last() =~= a + b.drop_last());
        assert((a + b).last() == b.last());
    }
}

/// The text of one element alone is its text.
pub proof fn lemma_elems_view_text_single(e: ElemView, tokens: Seq<Token>)
    ensures
        elems_view_text(seq![e], tokens) == elem_view_text(e, tokens),
{
    assert(seq![e].drop_last() =~= Seq::<ElemView>::empty());
    assert(seq![e].last() == e);
    assert(elems_view_text(Seq::<ElemView>::empty(), tokens) =~= Seq::<char>::empty());
    assert(Seq::<char>::empty() + elem_view_text(e, tokens) =~= elem_view_text(e, tokens));
}

/// The text of a node is the text of its value.
pub proof fn lemma_node_text_view(n: Node, tokens: Seq<Token>)
    ensures
        node_text(n, tokens) == view_text(node_view(n), tokens),
    decreases n,
{
    match n {
        Node::Tree(t) => {
            assert(decreases_to!(n => t));
            assert(decreases_to!(t => t.pattern));
            assert(decreases_to!(t.pattern => t.pattern@));
            lemma_elems_text_view(t.pattern@, tokens);
        },
        Node::Stringy(..) => {},
    }
}

/// The node that a shared reference refers to.
spec fn shared_node(r: Rc<Node>) -> Node {
    *r
}

proof fn lemma_elems_text_view(es: Seq<Elem>, tokens: Seq<Token>)
    ensures
        elems_text(es, tokens) == elems_view_text(elems_view(es), tokens),
    decreases es,
{
    if es.len() > 0 {
        lemma_elems_text_view(es.drop_last(), tokens);
        let ev = elems_view(es);
        assert(ev == elems_view(es.drop_last()).push(elem_view(es.last())));
        assert(ev.drop_last() =~= elems_view(es.drop_last()));
        assert(ev.last() == elem_view(es.last()));
        assert(elems_view_text(ev, tokens) == elems_view_text(ev.drop_last(), tokens) + elem_view_text(ev.last(), tokens));
        match es.last() {
            Elem::Node { node, .. } => {
                assert(decreases_to!(es => es[es.len() - 1]));
                lemma_node_text_view(shared_node(node), tokens);
                assert(elem_view_text(elem_view(es.last()), tokens) == view_text(node_view(shared_node(node)), tokens));
            },
            _ => {},
        }
        assert(elem_text(es.last(), tokens) == elem_view_text(elem_view(es.last()), tokens));
        assert(elems_text(es, tokens) == elems_text(es.drop_last(), tokens) + elem_text(es.last(), tokens));
    }
}

impl View for Node {
    type V = NodeView;

    open spec fn view(&self) -> NodeView {
        node_view(*self)
    }
}

/// The text of the token `id` followed by the whitespace `ws`.
pub open spec fn token_text(tokens: Seq<Token>, id: TokenId, ws: Seq<char>) -> Seq<char> {
    tokens[id.0 as int].spec_text() + ws
}

/// The text of a node.
pub closed spec fn node_text(n: Node, tokens: Seq<Token>) -> Seq<char>
    decreases n,
{
    match n {
        Node::Tree(t) => elems_text(t.pattern@, tokens),
        Node::Stringy(s, ws) => s.display_str@ + ws@,
    }
}

/// The text of a sequence of elements, one after the other.
pub closed spec fn elems_text(es: Seq<Elem>, tokens: Seq<Token>) -> Seq<char>
    decreases es,
{
    if es.len() == 0 {
        Seq::empty()
    } else {
        elems_text(es.drop_last(), tokens) + elem_text(es.last(), tokens)
    }
}

/// The text of an element.
pub closed spec fn elem_text(e: Elem, tokens: Seq<Token>) -> Seq<char>
    decreases e,
{
    match e {
        Elem::Token { token, ws } => token_text(tokens, token, ws@),
        Elem::Node { node, .. } => node_text(*node, tokens),
        Elem::SeqStart | Elem::SeqEnd => Seq::empty(),
        Elem::SeqDelim(token, ws) => token_text(tokens, token, ws@),
    }
}

/// Every token of a node is one of the first `n` tokens.
pub closed spec fn node_tokens_below(n: Node, count: nat) -> bool
    decreases n,
{
    match n {
        Node::Tree(t) => elems_tokens_below(t.pattern@, count),
        Node::Stringy(..) => true,
    }
}

/// Every token of a sequence of elements is one of the first `n` tokens.
pub closed spec fn elems_tokens_below(es: Seq<Elem>, count: nat) -> bool
    decreases es,
{
    if es.len() == 0 {
        true
    } else {
        elems_tokens_below(es.drop_last(), count) && elem_tokens_below(es.last(), count)
    }
}

/// Every token of an element is one of the first `n` tokens.
pub closed spec fn elem_tokens_below(e: Elem, count: nat) -> bool
    decreases e,
{
    match e {
        Elem::Token { token, .. } => token.0 < count,
        Elem::Node { node, .. } => node_tokens_below(*node, count),
        Elem::SeqStart | Elem::SeqEnd => true,
        Elem::SeqDelim(token, _) => token.0 < count,
    }
}

proof fn lemma_elems_prefix(es: Seq<Elem>, i: int, count: nat, tokens: Seq<Token>)
    requires
        0 <= i < es.len(),
    ensures
        elems_text(es.take(i + 1), tokens) == elems_text(es.take(i), tokens) + elem_text(es[i], tokens),
        elems_tokens_below(es, count) ==> elem_tokens_below(es[i], count),
    decreases es.len(),
{
    assert(es.take(i + 1).drop_last() == es.take(i));
    if elems_tokens_below(es, count) && i < es.len() - 1 {
        lemma_elems_prefix(es.drop_last(), i, count, tokens);
        assert(es.drop_last()[i] == es[i]);
    }
}

impl Tree {
    /// The text of the tree.
    pub closed spec fn text(&self, tokens: Seq<Token>) -> Seq<char> {
        self.leading_ws@ + node_text(self.root, tokens)
    }

    /// Every token of the tree is a token of `grammar`.
    pub closed spec fn valid_for(&self, grammar: Grammar) -> bool {
        node_tokens_below(self.root, grammar.spec_tokens().len())
    }

    /// A tree of the leading whitespace `leading_ws` and the root node `root`.
    pub fn new(leading_ws: String, root: Node) -> (t: Tree)
        ensures
            t.text_parts() == (leading_ws@, root),
    {
        Tree { leading_ws, root }
    }

    /// The leading whitespace and root of the tree.
    pub closed spec fn text_parts(&self) -> (Seq<char>, Node) {
        (self.leading_ws@, self.root)
    }

    /// Writes the text of the tree to `w`.
    pub fn write_text(&self, w: &mut String, grammar: &Grammar)
        requires
            self.valid_for(*grammar),
        ensures
            final(w)@ == old(w)@ + self.text(grammar.spec_tokens()),
    {
        w.append(self.leading_ws.as_str());
        self.root.write_text(w, grammar);
        assert(w@ =~= old(w)@ + self.text(grammar.spec_tokens()));
    }

    /// The text of the tree.
    pub fn to_text(&self, grammar: &Grammar) -> (s: String)
        requires
            self.valid_for(*grammar),
        ensures
            s@ == self.text(grammar.spec_tokens()),
    {
        let mut s = String::new();
        self.write_text(&mut s, grammar);
        assert(s@ =~= self.text(grammar.spec_tokens()));
        s
    }
}

impl Node {
    /// The text of this node.
    pub open spec fn text(&self, tokens: Seq<Token>) -> Seq<char> {
        node_text(*self, tokens)
    }

    /// Every token of this node is a token of `grammar`.
    pub open spec fn valid_for(&self, grammar: Grammar) -> bool {
        node_tokens_below(*self, grammar.spec_tokens().len())
    }

    /// A stringy node of type `type_id`, with the given contents, the text that displays them,
    /// and the whitespace that follows it.
    pub fn new_stringy(type_id: TypeId, contents: String, display_str: String, ws: &str) -> (n: Node)
        ensures
            n is Stringy,
            n@ == (NodeView::Stringy { type_id, contents: contents@, display: display_str@, ws: ws@ }),
            forall|tokens: Seq<Token>| #[trigger] n.text(tokens) == display_str@ + ws@,
            forall|count: nat| #[trigger] node_tokens_below(n, count),
    {
        Node::Stringy(StringyNode { type_: type_id, contents, display_str }, ws.to_owned())
    }

    /// Writes the text of this node to `w`.
    pub fn write_text(&self, w: &mut String, grammar: &Grammar)
        requires
            self.valid_for(*grammar),
        ensures
            final(w)@ == old(w)@ + self.text(grammar.spec_tokens()),
        decreases self,
    {
        let ghost tokens = grammar.spec_tokens();
        match self {
            Node::Tree(t) => {
                let ghost head = w@;
                let mut i: usize = 0;
                while i < t.pattern.len()
                    invariant
                        *self == Node::Tree(*t),
                        i <= t.pattern@.len(),
                        tokens == grammar.spec_tokens(),
                        elems_tokens_below(t.pattern@, tokens.len()),
                        w@ == head + elems_text(t.pattern@.take(i as int), tokens),
                    decreases t.pattern@.len() - i,
                {
                    proof {
                        lemma_elems_prefix(t.pattern@, i as int, tokens.len(), tokens);
                        assert(*t == self->Tree_0);
                        assert(decreases_to!(*self => self->Tree_0));
                        assert(decreases_to!(*t => t.pattern));
                        assert(decreases_to!(t.pattern => t.pattern@));
                        assert(decreases_to!(t.pattern@ => t.pattern@[i as int]));
                    }
                    t.pattern[i].write_text(w, grammar);
                    i = i + 1;
                }
                assert(t.pattern@.take(i as int) == t.pattern@);
            },
            Node::Stringy(s, ws) => {
                w.append(s.display_str.as_str());
                w.append(ws.as_str());
            },
        }
    }
}

impl Elem {
    /// Writes the text of this element to `w`.
    pub fn write_text(&self, w: &mut String, grammar: &Grammar)
        requires
            elem_tokens_below(*self, grammar.spec_tokens().len()),
        ensures
            final(w)@ == old(w)@ + elem_text(*self, grammar.spec_tokens()),
        decreases self,
    {
        match self {
            Elem::Token { token, ws } => {
                w.append(grammar.token_text(*token));
                w.append(ws.as_str());
            },
            Elem::Node { node, .. } => {
                proof {
                    assert(decreases_to!(*self => *node));
                }
                node.write_text(w, grammar);
            },
            Elem::SeqStart | Elem::SeqEnd => {
                assert(w@ =~= old(w)@ + Seq::<char>::empty());
            },
            Elem::SeqDelim(token, ws) => {
                w.append(grammar.token_text(*token));
                w.append(ws.as_str());
            },
        }
    }
}

impl NodeBuilder {
    /// The type of the node being built.
    pub closed spec fn spec_type_id(&self) -> TypeId {
        self.type_id
    }

    /// The elements added so far.
    pub closed spec fn elems(&self) -> Seq<Elem> {
        self.pattern@
    }

    /// The values of the elements added so far.
    pub closed spec fn built(&self) -> Seq<ElemView> {
        elems_view(self.pattern@)
    }

    /// A builder of a node of type `type_id`, with no elements yet.
    pub fn new(type_id: TypeId) -> (b: Self)
        ensures
            b.spec_type_id() == type_id,
            b.elems() == Seq::<Elem>::empty(),
            b.built() == Seq::<ElemView>::empty(),
    {
        NodeBuilder { type_id, pattern: Vec::new() }
    }

    /// Adds a sub-node, whose type is a descendant of `type_bound`.
    pub fn add_node(&mut self, type_bound: TypeId, node: Rc<Node>)
        ensures
            final(self).spec_type_id() == old(self).spec_type_id(),
            final(self).elems() == old(self).elems().push(Elem::Node { type_bound, node }),
            final(self).built() == old(self).built().push(ElemView::Node { type_bound, node: Box::new((*node)@) }),
    {
        self.pattern.push(Elem::Node { type_bound, node });
        proof {
            lemma_elems_view_push(old(self).pattern@, Elem::Node { type_bound, node });
        }
        assert(self.pattern@.drop_last() == old(self).pattern@);
    }

    /// Adds a token, followed by the whitespace `ws`.
    pub fn add_token(&mut self, token: TokenId, ws: &str)
        ensures
            final(self).spec_type_id() == old(self).spec_type_id(),
            final(self).elems().drop_last() == old(self).elems(),
            final(self).elems().last() matches Elem::Token { token: t, ws: w } && t == token && w@
                == ws@,
            final(self).built() == old(self).built().push(ElemView::Token { token, ws: ws@ }),
    {
        self.pattern.push(Elem::Token { token, ws: ws.to_owned() });
        proof {
            lemma_elems_view_push(old(self).pattern@, self.pattern@.last());
            assert(self.pattern@ == old(self).pattern@.push(self.pattern@.last()));
        }
        assert(self.pattern@.drop_last() == old(self).elems());
    }

    /// Marks the start of a sequence.
    pub fn seq_start(&mut self)
        ensures
            final(self).spec_type_id() == old(self).spec_type_id(),
            final(self).elems() == old(self).elems().push(Elem::SeqStart),
            final(self).built() == old(self).built().push(ElemView::SeqStart),
    {
        self.pattern.push(Elem::SeqStart);
        proof {
            lemma_elems_view_push(old(self).pattern@, Elem::SeqStart);
        }
        assert(self.pattern@.drop_last() == old(self).pattern@);
    }

    /// Adds the delimiter token of a sequence, followed by the whitespace `ws`.
    pub fn seq_delim(&mut self, token: TokenId, ws: &str)
        ensures
            final(self).spec_type_id() == old(self).spec_type_id(),
            final(self).elems().drop_last() == old(self).elems(),
            final(self).elems().last() matches Elem::SeqDelim(t, w) && t == token && w@ == ws@,
            final(self).built() == old(self).built().push(ElemView::SeqDelim(token, ws@)),
    {
        self.pattern.push(Elem::SeqDelim(token, ws.to_owned()));
        proof {
            lemma_elems_view_push(old(self).pattern@, self.pattern@.last());
            assert(self.pattern@ == old(self).pattern@.push(self.pattern@.last()));
        }
        assert(self.pattern@.drop_last() == old(self).elems());
    }

    /// Marks the end of a sequence.
    pub fn seq_end(&mut self)
        ensures
            final(self).spec_type_id() == old(self).spec_type_id(),
            final(self).elems() == old(self).elems().push(Elem::SeqEnd),
            final(self).built() == old(self).built().push(ElemView::SeqEnd),
    {
        self.pattern.push(Elem::SeqEnd);
        proof {
            lemma_elems_view_push(old(self).pattern@, Elem::SeqEnd);
        }
        assert(self.pattern@.drop_last() == old(self).pattern@);
    }

    /// The node built: a tree node of the builder's type and elements.
    pub fn into_node(self) -> (n: Node)
        ensures
            n is Tree,
            n@ == (NodeView::Tree { type_id: self.spec_type_id(), elems: self.built() }),
            forall|tokens: Seq<Token>| #[trigger] n.text(tokens) == elems_text(self.elems(), tokens),
            forall|count: nat| #[trigger] node_tokens_below(n, count) == elems_tokens_below(
                self.elems(),
                count,
            ),
    {
        let NodeBuilder { type_id, pattern } = self;
        Node::Tree(TreeNode { type_id, pattern })
    }
}

} // verus!
