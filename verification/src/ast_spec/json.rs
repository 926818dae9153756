//! JSON trees whose nodes refer to their children through a node map.

use vstd::prelude::*;
use vstd::string::*;

use super::vec_node_map::{Index, VecNodeMap};
use crate::ast::json::{bracketed, child_indent, quoted, separator};
use crate::base::key_display::{decimal, push_decimal};
use crate::base::{spaces, string_pop, string_push};

verus! {

/// An enum to hold the different ways that a JSON AST can be formatted
#[derive(Debug, Copy, Clone, PartialEq, Eq, Structural)]
pub enum JSONFormat {
    /// The most compact representation, has minimal whitespace.
    /// E.g. `[{"foo": true, "bar: false}, true]`
    Compact,
    /// A prettified representation, with pretty indenting and every element on a newline.
    Pretty,
}

/// The sapling representation of the AST for a subset of JSON (where all values are either 'true'
/// or 'false', and keys only contain ASCII).  Children are referenced by their [`Index`] in a
/// [`VecNodeMap`].
#[derive(Debug)]
pub enum JSON {
    /// The JSON value for 'true'.  Corresponds to the string `true`.
    True,
    /// The JSON value 'false'.  Corresponds to the string `false`.
    False,
    /// A JSON array of multiple values: `[<v1>, <v2>, ...]`.
    Array(Vec<Index>),
    /// A JSON object, whose children must be [`Field`](JSON::Field)s:
    /// `{"<key1>": <v1>, "<key2>": <v2>, ...}`.
    Object(Vec<Index>),
    /// A JSON object field.  The first reference must be a [`Str`](JSON::Str), and the second is
    /// any JSON value.
    Field(Index, Index),
    /// A JSON string
    Str(String),
}

/// The references to the direct children of a node.
pub open spec fn node_children(n: JSON) -> Seq<Index> {
    match n {
        JSON::Array(cs) => cs@,
        JSON::Object(cs) => cs@,
        JSON::Field(k, v) => seq![k, v],
        _ => Seq::empty(),
    }
}

/// Every child of a node comes before it in the map: the map holds a forest, and renders.
pub open spec fn map_wf(nodes: Seq<JSON>) -> bool {
    forall|i: int, j: int|
        #![trigger node_children(nodes[i])[j]]
        0 <= i < nodes.len() && 0 <= j < node_children(nodes[i]).len() ==> node_children(
            nodes[i],
        )[j].0 < i
}

/// The text of the node at reference `id` of `nodes`, rendered pretty (`pretty == true`) or
/// compact, with its first line at indentation `ind`.
pub open spec fn render_ref(nodes: Seq<JSON>, id: nat, pretty: bool, ind: nat) -> Seq<char>
    decreases id + 1, 0nat, 0nat,
{
    if id < nodes.len() {
        render_node(nodes, nodes[id as int], id, pretty, ind)
    } else {
        Seq::empty()
    }
}

/// The text of a node whose children are the nodes of `nodes` referenced below `bound`.
pub open spec fn render_node(nodes: Seq<JSON>, n: JSON, bound: nat, pretty: bool, ind: nat) -> Seq<
    char,
>
    decreases bound, 1nat, 0nat,
{
    match n {
        JSON::True => seq!['t', 'r', 'u', 'e'],
        JSON::False => seq!['f', 'a', 'l', 's', 'e'],
        JSON::Str(s) => quoted(s@),
        JSON::Field(k, v) => (if k.0 < bound {
            render_ref(nodes, k.0 as nat, pretty, ind)
        } else {
            Seq::empty()
        }) + seq![':', ' '] + (if v.0 < bound {
            render_ref(nodes, v.0 as nat, pretty, ind)
        } else {
            Seq::empty()
        }),
        JSON::Array(cs) => bracketed(
            '[',
            ']',
            cs@.len(),
            render_refs(nodes, cs@, bound, pretty, child_indent(pretty, ind)),
            pretty,
            ind,
        ),
        JSON::Object(cs) => bracketed(
            '{',
            '}',
            cs@.len(),
            render_refs(nodes, cs@, bound, pretty, child_indent(pretty, ind)),
            pretty,
            ind,
        ),
    }
}

/// The texts of the nodes referenced by `cs`, separated by commas.
pub open spec fn render_refs(
    nodes: Seq<JSON>,
    cs: Seq<Index>,
    bound: nat,
    pretty: bool,
    ind: nat,
) -> Seq<char>
    decreases bound, 0nat, cs.len(),
{
    if cs.len() == 0 {
        Seq::empty()
    } else {
        render_refs(nodes, cs.drop_last(), bound, pretty, ind) + (if cs.len() > 1 {
            separator(pretty, ind)
        } else {
            Seq::empty()
        }) + (if cs.last().0 < bound {
            render_ref(nodes, cs.last().0 as nat, pretty, ind)
        } else {
            Seq::empty()
        })
    }
}

/// The text written in place of the node at reference `id`, which refers to no node.
pub open spec fn invalid_ref_text(id: nat) -> Seq<char> {
    "<INVALID REF Index("@ + decimal(id) + ")>"@
}

/// The text written for a map whose root refers to no node.
pub open spec fn invalid_root_text() -> Seq<char> {
    "<INVALID ROOT NODE>"@
}

/// The text put between two children of an array or object whose children start their lines
/// with `ind`.
pub open spec fn list_separator(pretty: bool, ind: Seq<char>) -> Seq<char> {
    if pretty {
        seq![',', '\n'] + ind
    } else {
        seq![',', ' ']
    }
}

/// The text that starts the lines of the children of a node whose lines start with `ind`.
pub open spec fn inner_indent(pretty: bool, ind: Seq<char>) -> Seq<char> {
    if pretty {
        ind + spaces(4)
    } else {
        ind
    }
}

/// The text of a bracketed list (array or object) of `n` children which render to `body`, when
/// its lines start with `ind`.
pub open spec fn list_text(open: char, close: char, n: nat, body: Seq<char>, pretty: bool, ind: Seq<char>) -> Seq<char> {
    if n == 0 {
        seq![open, close]
    } else if pretty {
        seq![open, '\n'] + ind + spaces(4) + body + seq!['\n'] + ind + seq![close]
    } else {
        seq![open] + body + seq![close]
    }
}

/// The text of the node at reference `id` of `nodes`, rendered pretty (`pretty == true`) or
/// compact with its lines starting with `ind`, where `fuel` more levels of nodes may be
/// followed: a reference to no node is written as [`invalid_ref_text`].
pub open spec fn text_ref(nodes: Seq<JSON>, id: nat, fuel: nat, pretty: bool, ind: Seq<char>) -> Seq<char>
    decreases fuel, 0nat, 0nat,
{
    if id >= nodes.len() {
        invalid_ref_text(id)
    } else if fuel == 0 {
        Seq::empty()
    } else {
        text_node(nodes, nodes[id as int], (fuel - 1) as nat, pretty, ind)
    }
}

/// The text of the node `n`, whose children are nodes of `nodes` (see [`text_ref`]).
pub open spec fn text_node(nodes: Seq<JSON>, n: JSON, fuel: nat, pretty: bool, ind: Seq<char>) -> Seq<char>
    decreases fuel, 2nat, 0nat,
{
    match n {
        JSON::True => seq!['t', 'r', 'u', 'e'],
        JSON::False => seq!['f', 'a', 'l', 's', 'e'],
        JSON::Str(s) => quoted(s@),
        JSON::Field(k, v) => text_ref(nodes, k.0 as nat, fuel, pretty, ind) + seq![':', ' '] + text_ref(
            nodes,
            v.0 as nat,
            fuel,
            pretty,
            ind,
        ),
        JSON::Array(cs) => list_text(
            '[',
            ']',
            cs@.len(),
            text_refs(nodes, cs@, fuel, pretty, inner_indent(pretty, ind)),
            pretty,
            ind,
        ),
        JSON::Object(cs) => list_text(
            '{',
            '}',
            cs@.len(),
            text_refs(nodes, cs@, fuel, pretty, inner_indent(pretty, ind)),
            pretty,
            ind,
        ),
    }
}

/// The texts of the nodes referenced by `cs`, separated by commas (see [`text_ref`]).
pub open spec fn text_refs(nodes: Seq<JSON>, cs: Seq<Index>, fuel: nat, pretty: bool, ind: Seq<char>) -> Seq<char>
    decreases fuel, 1nat, cs.len(),
{
    if cs.len() == 0 {
        Seq::empty()
    } else {
        text_refs(nodes, cs.drop_last(), fuel, pretty, ind) + (if cs.len() > 1 {
            list_separator(pretty, ind)
        } else {
            Seq::empty()
        }) + text_ref(nodes, cs.last().0 as nat, fuel, pretty, ind)
    }
}

/// Every child of `n` that is a node of `nodes` has a rank below `r`.
pub open spec fn refs_ranked_below(nodes: Seq<JSON>, rank: spec_fn(nat) -> nat, n: JSON, r: nat) -> bool {
    forall|j: int|
        0 <= j < node_children(n).len() && node_children(n)[j].0 < nodes.len() ==> rank(
            #[trigger] node_children(n)[j].0 as nat,
        ) < r
}

/// `rank` ranks the nodes of `nodes` below the number of nodes, each above the nodes that it
/// refers to.
pub open spec fn ranks(nodes: Seq<JSON>, rank: spec_fn(nat) -> nat) -> bool {
    forall|i: nat|
        i < nodes.len() ==> #[trigger] rank(i) < nodes.len() && refs_ranked_below(nodes, rank, nodes[i as int], rank(i))
}

/// No node of `nodes` refers to itself, directly or through its descendants: the text of
/// every node is finite.
pub open spec fn acyclic(nodes: Seq<JSON>) -> bool {
    exists|rank: spec_fn(nat) -> nat| ranks(nodes, rank)
}

/// The text of the map `nodes` with root `root`: that of its root node, or
/// [`invalid_root_text`] where the root refers to no node.
pub open spec fn map_text(nodes: Seq<JSON>, root: nat, pretty: bool) -> Seq<char> {
    if root < nodes.len() {
        text_node(nodes, nodes[root as int], nodes.len(), pretty, Seq::empty())
    } else {
        invalid_root_text()
    }
}

/// A map whose children come before their parents has no cycles.
pub proof fn lemma_wf_acyclic(nodes: Seq<JSON>)
    requires
        map_wf(nodes),
    ensures
        acyclic(nodes),
{
    let rank = |i: nat| i;
    assert forall|i: nat| i < nodes.len() implies #[trigger] rank(i) < nodes.len() && refs_ranked_below(
        nodes,
        rank,
        nodes[i as int],
        rank(i),
    ) by {
        assert forall|j: int|
            0 <= j < node_children(nodes[i as int]).len() && node_children(nodes[i as int])[j].0 < nodes.len() implies rank(
            #[trigger] node_children(nodes[i as int])[j].0 as nat,
        ) < rank(i) by {
            assert(node_children(nodes[i as int])[j].0 < i);
        }
    }
    assert(ranks(nodes, rank));
}

/// The display name of a node, as shown in tree views.
pub open spec fn spec_display_name(n: JSON) -> Seq<char> {
    match n {
        JSON::True => seq!['t', 'r', 'u', 'e'],
        JSON::False => seq!['f', 'a', 'l', 's', 'e'],
        JSON::Array(_) => seq!['a', 'r', 'r', 'a', 'y'],
        JSON::Object(_) => seq!['o', 'b', 'j', 'e', 'c', 't'],
        JSON::Field(_, _) => seq!['f', 'i', 'e', 'l', 'd'],
        JSON::Str(s) => quoted(s@),
    }
}

/// The chars which represent the JSON nodes a user can create.
pub open spec fn object_chars() -> Seq<char> {
    seq!['t', 'f', 'a', 'o', 's']
}

/// The char that inserts a field into an object.
pub const CHAR_FIELD: char = 'i';

/// All children of `n` are references below `bound`.
pub open spec fn children_below(n: JSON, bound: nat) -> bool {
    forall|j: int| 0 <= j < node_children(n).len() ==> #[trigger] node_children(n)[j].0 < bound
}

/// Appends `s` to `string`.
fn push_str(string: &mut String, s: &str)
    ensures
        final(string)@ == old(string)@ + s@,
{
    string.append(s);
}

/// `a` and `b` are the same node: same variant, same string contents and the same child
/// references.
pub open spec fn same_json(a: JSON, b: JSON) -> bool {
    match (a, b) {
        (JSON::True, JSON::True) => true,
        (JSON::False, JSON::False) => true,
        (JSON::Str(x), JSON::Str(y)) => x@ == y@,
        (JSON::Array(x), JSON::Array(y)) => x@ == y@,
        (JSON::Object(x), JSON::Object(y)) => x@ == y@,
        (JSON::Field(k1, v1), JSON::Field(k2, v2)) => k1 == k2 && v1 == v2,
        _ => false,
    }
}

impl Clone for JSON {
    fn clone(&self) -> (r: Self)
        ensures
            same_json(r, *self),
    {
        match self {
            JSON::True => JSON::True,
            JSON::False => JSON::False,
            JSON::Array(cs) => JSON::Array(cs.clone()),
            JSON::Object(cs) => JSON::Object(cs.clone()),
            JSON::Field(k, v) => JSON::Field(*k, *v),
            JSON::Str(s) => JSON::Str(s.clone()),
        }
    }
}

impl Default for JSON {
    fn default() -> (r: JSON)
        ensures
            r matches JSON::Object(cs) && cs@.len() == 0,
    {
        JSON::Object(Vec::new())
    }
}

/// Appends the text written in place of the node at `id`, which refers to no node.
fn push_invalid_ref(string: &mut String, id: Index)
    ensures
        final(string)@ == old(string)@ + invalid_ref_text(id.0 as nat),
{
    push_str(string, "<INVALID REF Index(");
    push_decimal(string, id.0);
    push_str(string, ")>");
    proof {
        reveal_strlit("<INVALID REF Index(");
        reveal_strlit(")>");
    }
    assert(string@ =~= old(string)@ + invalid_ref_text(id.0 as nat));
}

impl JSON {
    /// Writes the compact text of this node, following `fuel` more levels of nodes of
    /// `node_map`, ranked by `rank`.
    fn write_compact_rec(
        &self,
        node_map: &VecNodeMap<JSON>,
        string: &mut String,
        Ghost(fuel): Ghost<nat>,
        Ghost(rank): Ghost<spec_fn(nat) -> nat>,
    )
        requires
            ranks(node_map.spec_nodes(), rank),
            refs_ranked_below(node_map.spec_nodes(), rank, *self, fuel),
        ensures
            final(string)@ == old(string)@ + text_node(node_map.spec_nodes(), *self, fuel, false, Seq::empty()),
        decreases fuel, 2nat,
    {
        let ghost nodes = node_map.spec_nodes();
        proof {
            reveal_strlit("true");
            reveal_strlit("false");
            reveal_strlit(": ");
            assert("true"@ =~= seq!['t', 'r', 'u', 'e']);
            assert("false"@ =~= seq!['f', 'a', 'l', 's', 'e']);
            assert(": "@ =~= seq![':', ' ']);
        }
        match self {
            JSON::True => {
                push_str(string, "true");
            },
            JSON::False => {
                push_str(string, "false");
            },
            JSON::Array(children) => {
                self.write_list_compact(children, '[', ']', node_map, string, Ghost(fuel), Ghost(rank));
            },
            JSON::Object(fields) => {
                self.write_list_compact(fields, '{', '}', node_map, string, Ghost(fuel), Ghost(rank));
            },
            JSON::Field(key, value) => {
                /* We want to generate the string `<key>: <value>` */
                assert(node_children(*self)[0] == *key);
                assert(node_children(*self)[1] == *value);
                let ghost before = string@;
                // Push the 'key' node
                self.write_ref_compact(*key, node_map, string, Ghost(fuel), Ghost(rank));
                // Push the ': '
                push_str(string, ": ");
                // Push the 'value' node
                self.write_ref_compact(*value, node_map, string, Ghost(fuel), Ghost(rank));
                assert(string@ =~= before + text_node(nodes, *self, fuel, false, Seq::empty()));
            },
            JSON::Str(content) => {
                // Just push `"<content>"` - we won't worry about proper escaping yet
                let ghost before = string@;
                string_push(string, '"');
                push_str(string, content.as_str());
                string_push(string, '"');
                assert(string@ =~= before + quoted(content@));
            },
        }
    }

    /// Writes the compact text of the node at `r`, a child of this node, or the text that marks
    /// a reference to no node.
    fn write_ref_compact(
        &self,
        r: Index,
        node_map: &VecNodeMap<JSON>,
        string: &mut String,
        Ghost(fuel): Ghost<nat>,
        Ghost(rank): Ghost<spec_fn(nat) -> nat>,
    )
        requires
            ranks(node_map.spec_nodes(), rank),
            r.0 < node_map.spec_nodes().len() ==> rank(r.0 as nat) < fuel,
        ensures
            final(string)@ == old(string)@ + text_ref(node_map.spec_nodes(), r.0 as nat, fuel, false, Seq::empty()),
        decreases fuel, 0nat,
    {
        match node_map.get_node(r) {
            Some(child) => {
                proof {
                    let nodes = node_map.spec_nodes();
                    assert(rank(r.0 as nat) < nodes.len() && refs_ranked_below(nodes, rank, nodes[r.0 as int], rank(r.0 as nat)));
                }
                child.write_compact_rec(node_map, string, Ghost((fuel - 1) as nat), Ghost(rank));
            },
            None => {
                push_invalid_ref(string, r);
            },
        }
    }

    /// Writes the compact text of an array or object with children `children`.
    fn write_list_compact(
        &self,
        children: &Vec<Index>,
        open: char,
        close: char,
        node_map: &VecNodeMap<JSON>,
        string: &mut String,
        Ghost(fuel): Ghost<nat>,
        Ghost(rank): Ghost<spec_fn(nat) -> nat>,
    )
        requires
            *self == JSON::Array(*children) || *self == JSON::Object(*children),
            *self is Array ==> open == '[' && close == ']',
            *self is Object ==> open == '{' && close == '}',
            ranks(node_map.spec_nodes(), rank),
            refs_ranked_below(node_map.spec_nodes(), rank, *self, fuel),
        ensures
            final(string)@ == old(string)@ + text_node(node_map.spec_nodes(), *self, fuel, false, Seq::empty()),
        decreases fuel, 1nat,
    {
        let ghost nodes = node_map.spec_nodes();
        let ghost cs = children@;
        proof {
            reveal_strlit(", ");
            assert(", "@ =~= seq![',', ' ']);
        }
        // All lists start with an opening bracket
        string_push(string, open);
        let ghost head = string@;
        // Append all the children, separated by commas
        let mut i: usize = 0;
        while i < children.len()
            invariant
                i <= cs.len(),
                cs == children@,
                cs == node_children(*self),
                nodes == node_map.spec_nodes(),
                ranks(nodes, rank),
                refs_ranked_below(nodes, rank, *self, fuel),
                ", "@ == seq![',', ' '],
                string@ == head + text_refs(nodes, cs.take(i as int), fuel, false, Seq::<char>::empty()),
            decreases cs.len() - i,
        {
            let ghost before = string@;
            proof {
                assert(cs.take(i + 1).drop_last() =~= cs.take(i as int));
                assert(cs.take(i + 1).last() == cs[i as int]);
                assert(node_children(*self)[i as int] == cs[i as int]);
            }
            // Add the comma if this isn't the first element
            if i > 0 {
                push_str(string, ", ");
            }
            let ghost mid = string@;
            self.write_ref_compact(children[i], node_map, string, Ghost(fuel), Ghost(rank));
            proof {
                assert(children@[i as int] == cs[i as int]);
                assert(string@ == mid + text_ref(node_map.spec_nodes(), children@[i as int].0 as nat, fuel, false, Seq::<char>::empty()));
                assert(text_refs(nodes, cs.take(i + 1), fuel, false, Seq::<char>::empty()) == text_refs(nodes, cs.take(i as int), fuel, false, Seq::<char>::empty())
                    + (if i > 0 { list_separator(false, Seq::<char>::empty()) } else { Seq::<char>::empty() }) + text_ref(
                    nodes,
                    cs[i as int].0 as nat,
                    fuel,
                    false,
                    Seq::<char>::empty(),
                ));
                if i > 0 {
                    assert(mid == before + list_separator(false, Seq::<char>::empty()));
                } else {
                    assert(mid == before);
                    assert(text_refs(nodes, cs.take(0), fuel, false, Seq::<char>::empty()) =~= Seq::<char>::empty());
                }
            }
            assert(string@ =~= head + text_refs(nodes, cs.take(i + 1), fuel, false, Seq::<char>::empty()));
            i = i + 1;
        }
        // Finish the list with a closing bracket
        string_push(string, close);
        proof {
            assert(cs.take(i as int) =~= cs);
            assert(string@ =~= old(string)@ + text_node(nodes, *self, fuel, false, Seq::<char>::empty()));
        }
    }

    /// Writes the pretty text of this node, following `fuel` more levels of nodes of
    /// `node_map`, ranked by `rank`; its lines start with what `indentation_buffer` holds, which
    /// it holds again afterwards.
    fn write_pretty_rec(
        &self,
        node_map: &VecNodeMap<JSON>,
        string: &mut String,
        indentation_buffer: &mut String,
        Ghost(fuel): Ghost<nat>,
        Ghost(rank): Ghost<spec_fn(nat) -> nat>,
    )
        requires
            ranks(node_map.spec_nodes(), rank),
            refs_ranked_below(node_map.spec_nodes(), rank, *self, fuel),
        ensures
            final(string)@ == old(string)@ + text_node(node_map.spec_nodes(), *self, fuel, true, old(indentation_buffer)@),
            final(indentation_buffer)@ == old(indentation_buffer)@,
        decreases fuel, 2nat,
    {
        let ghost nodes = node_map.spec_nodes();
        let ghost ind = indentation_buffer@;
        proof {
            reveal_strlit("true");
            reveal_strlit("false");
            reveal_strlit(": ");
            assert("true"@ =~= seq!['t', 'r', 'u', 'e']);
            assert("false"@ =~= seq!['f', 'a', 'l', 's', 'e']);
            assert(": "@ =~= seq![':', ' ']);
        }
        match self {
            JSON::True => {
                push_str(string, "true");
            },
            JSON::False => {
                push_str(string, "false");
            },
            JSON::Array(children) => {
                self.write_list_pretty(children, '[', ']', node_map, string, indentation_buffer, Ghost(fuel), Ghost(rank));
            },
            JSON::Object(fields) => {
                self.write_list_pretty(fields, '{', '}', node_map, string, indentation_buffer, Ghost(fuel), Ghost(rank));
            },
            JSON::Field(key, value) => {
                /* We want to generate the string `<key>: <value>` */
                assert(node_children(*self)[0] == *key);
                assert(node_children(*self)[1] == *value);
                let ghost before = string@;
                // Push the 'key' node
                self.write_ref_pretty(*key, node_map, string, indentation_buffer, Ghost(fuel), Ghost(rank));
                // Push the ': '
                push_str(string, ": ");
                // Push the 'value' node
                self.write_ref_pretty(*value, node_map, string, indentation_buffer, Ghost(fuel), Ghost(rank));
                assert(string@ =~= before + text_node(nodes, *self, fuel, true, ind));
            },
            JSON::Str(content) => {
                // Just push `"<content>"` - we won't worry about proper escaping yet
                let ghost before = string@;
                string_push(string, '"');
                push_str(string, content.as_str());
                string_push(string, '"');
                assert(string@ =~= before + quoted(content@));
            },
        }
    }

    /// Writes the pretty text of the node at `r`, a child of this node, or the text that marks
    /// a reference to no node.
    fn write_ref_pretty(
        &self,
        r: Index,
        node_map: &VecNodeMap<JSON>,
        string: &mut String,
        indentation_buffer: &mut String,
        Ghost(fuel): Ghost<nat>,
        Ghost(rank): Ghost<spec_fn(nat) -> nat>,
    )
        requires
            ranks(node_map.spec_nodes(), rank),
            r.0 < node_map.spec_nodes().len() ==> rank(r.0 as nat) < fuel,
        ensures
            final(string)@ == old(string)@ + text_ref(node_map.spec_nodes(), r.0 as nat, fuel, true, old(indentation_buffer)@),
            final(indentation_buffer)@ == old(indentation_buffer)@,
        decreases fuel, 0nat,
    {
        match node_map.get_node(r) {
            Some(child) => {
                proof {
                    let nodes = node_map.spec_nodes();
                    assert(rank(r.0 as nat) < nodes.len() && refs_ranked_below(nodes, rank, nodes[r.0 as int], rank(r.0 as nat)));
                }
                child.write_pretty_rec(node_map, string, indentation_buffer, Ghost((fuel - 1) as nat), Ghost(rank));
            },
            None => {
                push_invalid_ref(string, r);
            },
        }
    }

    /// Writes the pretty text of an array or object with children `children`: each child on a
    /// line of its own, indented by one more level.
    fn write_list_pretty(
        &self,
        children: &Vec<Index>,
        open: char,
        close: char,
        node_map: &VecNodeMap<JSON>,
        string: &mut String,
        indentation_buffer: &mut String,
        Ghost(fuel): Ghost<nat>,
        Ghost(rank): Ghost<spec_fn(nat) -> nat>,
    )
        requires
            *self == JSON::Array(*children) || *self == JSON::Object(*children),
            *self is Array ==> open == '[' && close == ']',
            *self is Object ==> open == '{' && close == '}',
            ranks(node_map.spec_nodes(), rank),
            refs_ranked_below(node_map.spec_nodes(), rank, *self, fuel),
        ensures
            final(string)@ == old(string)@ + text_node(node_map.spec_nodes(), *self, fuel, true, old(indentation_buffer)@),
            final(indentation_buffer)@ == old(indentation_buffer)@,
        decreases fuel, 1nat,
    {
        let ghost nodes = node_map.spec_nodes();
        let ghost cs = children@;
        let ghost ind = indentation_buffer@;
        let ghost inner = ind + spaces(4);
        // Push the opening bracket on its own line
        string_push(string, open);
        if children.len() > 0 {
            string_push(string, '\n');
            let ghost head = string@;
            // Indent by one extra level
            proof {
                reveal_strlit("    ");
                reveal_strlit(",\n");
                assert("    "@ =~= spaces(4));
                assert(",\n"@ =~= seq![',', '\n']);
            }
            push_str(indentation_buffer, "    ");
            assert(indentation_buffer@ =~= inner);
            // Append all the children, separated by commas
            let mut i: usize = 0;
            while i < children.len()
                invariant
                    i <= cs.len(),
                    cs.len() > 0,
                    cs == children@,
                    cs == node_children(*self),
                    nodes == node_map.spec_nodes(),
                    ranks(nodes, rank),
                    refs_ranked_below(nodes, rank, *self, fuel),
                    indentation_buffer@ == inner,
                    inner == ind + spaces(4),
                    ",\n"@ == seq![',', '\n'],
                    i == 0 ==> string@ == head,
                    i > 0 ==> string@ == head + inner + text_refs(nodes, cs.take(i as int), fuel, true, inner),
                decreases cs.len() - i,
            {
                proof {
                    assert(cs.take(i + 1).drop_last() =~= cs.take(i as int));
                    assert(cs.take(i + 1).last() == cs[i as int]);
                    assert(node_children(*self)[i as int] == cs[i as int]);
                }
                // Add the comma if this isn't the first element
                if i > 0 {
                    push_str(string, ",\n");
                }
                // Indent and then render the child
                push_str(string, indentation_buffer.as_str());
                let ghost mid = string@;
                self.write_ref_pretty(children[i], node_map, string, indentation_buffer, Ghost(fuel), Ghost(rank));
                proof {
                    if i == 0 {
                        assert(cs.take(1).drop_last() =~= Seq::<Index>::empty());
                        assert(text_refs(nodes, cs.take(0), fuel, true, inner) =~= Seq::<char>::empty());
                        assert(string@ =~= head + inner + text_refs(nodes, cs.take(1), fuel, true, inner));
                    } else {
                        assert(string@ =~= head + inner + text_refs(nodes, cs.take(i + 1), fuel, true, inner));
                    }
                }
                i = i + 1;
            }
            // Return to the current indentation level
            string_pop(indentation_buffer);
            string_pop(indentation_buffer);
            string_pop(indentation_buffer);
            string_pop(indentation_buffer);
            assert(indentation_buffer@ =~= ind);
            // Put the closing bracket on its own line
            string_push(string, '\n');
            push_str(string, indentation_buffer.as_str());
            proof {
                assert(cs.take(i as int) =~= cs);
            }
        }
        string_push(string, close);
        assert(string@ =~= old(string)@ + text_node(nodes, *self, fuel, true, ind));
    }

    /// Writes the textual representation of this node, whose children are nodes of `node_map`,
    /// to a string.
    pub fn write_text(&self, node_map: &VecNodeMap<JSON>, string: &mut String, format_style: &JSONFormat)
        requires
            acyclic(node_map.spec_nodes()),
        ensures
            final(string)@ == old(string)@ + text_node(
                node_map.spec_nodes(),
                *self,
                node_map.spec_nodes().len(),
                *format_style == JSONFormat::Pretty,
                Seq::empty(),
            ),
    {
        let ghost nodes = node_map.spec_nodes();
        let ghost rank = choose|rank: spec_fn(nat) -> nat| ranks(nodes, rank);
        proof {
            assert forall|j: int|
                0 <= j < node_children(*self).len() && node_children(*self)[j].0 < nodes.len() implies rank(
                #[trigger] node_children(*self)[j].0 as nat,
            ) < nodes.len() by {
                let c = node_children(*self)[j].0 as nat;
                assert(rank(c) < nodes.len());
            }
        }
        match format_style {
            JSONFormat::Compact => {
                self.write_compact_rec(node_map, string, Ghost(nodes.len()), Ghost(rank));
            },
            JSONFormat::Pretty => {
                let mut indentation_buffer = String::new();
                assert(indentation_buffer@ =~= Seq::<char>::empty());
                self.write_pretty_rec(node_map, string, &mut indentation_buffer, Ghost(nodes.len()), Ghost(rank));
            },
        }
    }

    /// Makes a [`String`] representing this node.
    pub fn to_text(&self, node_map: &VecNodeMap<JSON>, format_style: &JSONFormat) -> (s: String)
        requires
            acyclic(node_map.spec_nodes()),
        ensures
            s@ == text_node(
                node_map.spec_nodes(),
                *self,
                node_map.spec_nodes().len(),
                *format_style == JSONFormat::Pretty,
                Seq::empty(),
            ),
    {
        let mut s = String::new();
        self.write_text(node_map, &mut s, format_style);
        assert(s@ =~= text_node(
            node_map.spec_nodes(),
            *self,
            node_map.spec_nodes().len(),
            *format_style == JSONFormat::Pretty,
            Seq::empty(),
        ));
        s
    }

    /// Get the references to the direct children of this node.
    pub fn children(&self) -> (r: Vec<Index>)
        ensures
            r@ == node_children(*self),
    {
        match self {
            JSON::True | JSON::False | JSON::Str(_) => Vec::new(),
            JSON::Array(children) => children.clone(),
            JSON::Object(fields) => fields.clone(),
            JSON::Field(key, value) => {
                let r = vec![*key, *value];
                assert(r@ =~= node_children(*self));
                r
            },
        }
    }

    /// Get the display name of this node
    pub fn display_name(&self) -> (name: String)
        ensures
            name@ == spec_display_name(*self),
    {
        proof {
            reveal_strlit("true");
            reveal_strlit("false");
            reveal_strlit("array");
            reveal_strlit("object");
            reveal_strlit("field");
        }
        match self {
            JSON::True => String::from_str("true"),
            JSON::False => String::from_str("false"),
            JSON::Array(_) => String::from_str("array"),
            JSON::Object(_) => String::from_str("object"),
            JSON::Field(_, _) => String::from_str("field"),
            JSON::Str(content) => {
                let mut name = String::new();
                string_push(&mut name, '"');
                push_str(&mut name, content.as_str());
                string_push(&mut name, '"');
                assert(name@ =~= quoted(content@));
                name
            },
        }
    }

    /// The shorthand [`char`]s that a user could type to replace this node with something else.
    pub fn replace_chars(&self) -> (cs: Vec<char>)
        ensures
            cs@ == object_chars(),
    {
        let cs = vec!['t', 'f', 'a', 'o', 's'];
        assert(cs@ =~= object_chars());
        cs
    }

    /// Generate a new node from a [`char`] that a user typed.  If `c` is one of the
    /// [`replace_chars`](Self::replace_chars), this returns [`Some`] node, otherwise [`None`].
    pub fn from_char(&self, c: char) -> (r: Option<JSON>)
        ensures
            object_chars().contains(c) <==> r is Some,
            c == 't' ==> r == Some(JSON::True),
            c == 'f' ==> r == Some(JSON::False),
            c == 'a' ==> (r matches Some(JSON::Array(cs)) && cs@.len() == 0),
            c == 'o' ==> (r matches Some(JSON::Object(cs)) && cs@.len() == 0),
            c == 's' ==> (r matches Some(JSON::Str(s)) && s@.len() == 0),
    {
        proof {
            let oc = object_chars();
            assert(oc[0] == 't' && oc[1] == 'f' && oc[2] == 'a' && oc[3] == 'o' && oc[4] == 's');
        }
        if c == 't' {
            Some(JSON::True)
        } else if c == 'f' {
            Some(JSON::False)
        } else if c == 'a' {
            Some(JSON::Array(Vec::new()))
        } else if c == 'o' {
            Some(JSON::Object(Vec::new()))
        } else if c == 's' {
            Some(JSON::Str(String::new()))
        } else {
            None
        }
    }

    /// The shorthand [`char`]s that a user could type to insert other nodes into this one: any
    /// node into an array, a field into an object.
    pub fn insert_chars(&self) -> (cs: Vec<char>)
        ensures
            *self is Array ==> cs@ == object_chars(),
            *self is Object ==> cs@ == seq![CHAR_FIELD],
            !(*self is Array || *self is Object) ==> cs@.len() == 0,
    {
        match self {
            JSON::True | JSON::False | JSON::Field(_, _) | JSON::Str(_) => Vec::new(),
            JSON::Object(_) => {
                let cs = vec![CHAR_FIELD];
                assert(cs@ =~= seq![CHAR_FIELD]);
                cs
            },
            JSON::Array(_) => self.replace_chars(),
        }
    }
}

impl VecNodeMap<JSON> {
    /// Every node of this map, and its root, can be rendered.
    pub open spec fn renderable(&self) -> bool {
        acyclic(self.spec_nodes()) && self.has_valid_root()
    }

    /// Writes the text rendering of the root node to a string, or a marker where the root
    /// refers to no node.
    pub fn write_text(&self, string: &mut String, format_style: &JSONFormat)
        requires
            acyclic(self.spec_nodes()),
        ensures
            final(string)@ == old(string)@ + map_text(
                self.spec_nodes(),
                self.spec_root(),
                *format_style == JSONFormat::Pretty,
            ),
    {
        match self.get_node(self.root()) {
            Some(root) => {
                root.write_text(self, string, format_style);
            },
            None => {
                push_str(string, "<INVALID ROOT NODE>");
                proof {
                    reveal_strlit("<INVALID ROOT NODE>");
                }
            },
        }
    }

    /// Generates the text rendering of the root node, or a marker where the root refers to no
    /// node.
    pub fn to_text(&self, format_style: &JSONFormat) -> (s: String)
        requires
            acyclic(self.spec_nodes()),
        ensures
            s@ == map_text(self.spec_nodes(), self.spec_root(), *format_style == JSONFormat::Pretty),
    {
        let mut s = String::new();
        self.write_text(&mut s, format_style);
        assert(s@ =~= map_text(self.spec_nodes(), self.spec_root(), *format_style == JSONFormat::Pretty));
        s
    }
}


/// In a map whose children come before their parents, the text of a node, with enough fuel and
/// its lines starting with `k` spaces, is its rendering at indentation `k`.
pub proof fn lemma_text_ref_renders(nodes: Seq<JSON>, id: nat, fuel: nat, pretty: bool, k: nat)
    requires
        map_wf(nodes),
        id < nodes.len(),
        id < fuel,
    ensures
        text_ref(nodes, id, fuel, pretty, spaces(k)) == render_ref(nodes, id, pretty, k),
    decreases id + 1, 0nat, 0nat,
{
    let n = nodes[id as int];
    assert forall|j: int| 0 <= j < node_children(n).len() implies #[trigger] node_children(n)[j].0 < id by {
        assert(node_children(nodes[id as int])[j].0 < id);
    }
    lemma_text_node_renders(nodes, n, id, (fuel - 1) as nat, pretty, k);
}

/// The text of a node whose children are below `bound` is its rendering (see
/// [`lemma_text_ref_renders`]).
pub proof fn lemma_text_node_renders(nodes: Seq<JSON>, n: JSON, bound: nat, fuel: nat, pretty: bool, k: nat)
    requires
        map_wf(nodes),
        bound <= nodes.len(),
        bound <= fuel,
        children_below(n, bound),
    ensures
        text_node(nodes, n, fuel, pretty, spaces(k)) == render_node(nodes, n, bound, pretty, k),
    decreases bound, 2nat, 0nat,
{
    assert(spaces(k) + spaces(4) =~= spaces(k + 4));
    match n {
        JSON::Field(key, v) => {
            assert(node_children(n)[0] == key);
            assert(node_children(n)[1] == v);
            lemma_text_ref_renders(nodes, key.0 as nat, fuel, pretty, k);
            lemma_text_ref_renders(nodes, v.0 as nat, fuel, pretty, k);
        },
        JSON::Array(cs) => {
            assert forall|j: int| 0 <= j < cs@.len() implies #[trigger] cs@[j].0 < bound by {
                assert(node_children(n)[j] == cs@[j]);
            }
            lemma_text_refs_renders(nodes, cs@, bound, fuel, pretty, child_indent(pretty, k));
            assert(inner_indent(pretty, spaces(k)) == spaces(child_indent(pretty, k)));
        },
        JSON::Object(cs) => {
            assert forall|j: int| 0 <= j < cs@.len() implies #[trigger] cs@[j].0 < bound by {
                assert(node_children(n)[j] == cs@[j]);
            }
            lemma_text_refs_renders(nodes, cs@, bound, fuel, pretty, child_indent(pretty, k));
            assert(inner_indent(pretty, spaces(k)) == spaces(child_indent(pretty, k)));
        },
        _ => {},
    }
}

/// The texts of the children `cs`, all below `bound`, are their renderings (see
/// [`lemma_text_ref_renders`]).
pub proof fn lemma_text_refs_renders(nodes: Seq<JSON>, cs: Seq<Index>, bound: nat, fuel: nat, pretty: bool, k: nat)
    requires
        map_wf(nodes),
        bound <= nodes.len(),
        bound <= fuel,
        forall|j: int| 0 <= j < cs.len() ==> #[trigger] cs[j].0 < bound,
    ensures
        text_refs(nodes, cs, fuel, pretty, spaces(k)) == render_refs(nodes, cs, bound, pretty, k),
    decreases bound, 1nat, cs.len(),
{
    if cs.len() > 0 {
        assert forall|j: int| 0 <= j < cs.drop_last().len() implies #[trigger] cs.drop_last()[j].0 < bound by {
            assert(cs.drop_last()[j] == cs[j]);
        }
        lemma_text_refs_renders(nodes, cs.drop_last(), bound, fuel, pretty, k);
        assert(cs.last() == cs[cs.len() - 1]);
        lemma_text_ref_renders(nodes, cs.last().0 as nat, fuel, pretty, k);
    }
}

} // verus!
