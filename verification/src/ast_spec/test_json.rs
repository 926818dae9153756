//! A copy of [`JSON`] that does not rely on a node map for recursive types, used to build node
//! maps in tests.

use vstd::prelude::*;

use super::json::{
    children_below, lemma_text_node_renders, lemma_wf_acyclic, map_text, map_wf, node_children, render_node,
    render_ref, render_refs, JSON,
};
use super::vec_node_map::{Index, VecNodeMap};
use crate::ast::json::{bracketed, child_indent, quoted, separator};
use crate::base::spaces;

verus! {

/// A copy of [`JSON`] where nodes own their children
#[derive(Debug)]
pub enum TestJSON {
    True,
    False,
    Array(Vec<TestJSON>),
    Object(Vec<(String, TestJSON)>),
}

/// The text of a tree, rendered pretty (`pretty == true`) or compact, with its first line at
/// indentation `ind`.
pub open spec fn test_render(t: TestJSON, pretty: bool, ind: nat) -> Seq<char>
    decreases t,
{
    match t {
        TestJSON::True => seq!['t', 'r', 'u', 'e'],
        TestJSON::False => seq!['f', 'a', 'l', 's', 'e'],
        TestJSON::Array(ts) => bracketed(
            '[',
            ']',
            ts@.len(),
            test_render_seq(ts@, pretty, child_indent(pretty, ind)),
            pretty,
            ind,
        ),
        TestJSON::Object(fs) => bracketed(
            '{',
            '}',
            fs@.len(),
            test_render_fields(fs@, pretty, child_indent(pretty, ind)),
            pretty,
            ind,
        ),
    }
}

/// The texts of a list of trees, separated by commas.
pub open spec fn test_render_seq(ts: Seq<TestJSON>, pretty: bool, ind: nat) -> Seq<char>
    decreases ts,
{
    if ts.len() == 0 {
        Seq::empty()
    } else {
        test_render_seq(ts.drop_last(), pretty, ind) + (if ts.len() > 1 {
            separator(pretty, ind)
        } else {
            Seq::empty()
        }) + test_render(ts.last(), pretty, ind)
    }
}

/// The texts of a list of object entries `"<key>": <value>`, separated by commas.
pub open spec fn test_render_fields(fs: Seq<(String, TestJSON)>, pretty: bool, ind: nat) -> Seq<
    char,
>
    decreases fs,
{
    if fs.len() == 0 {
        Seq::empty()
    } else {
        test_render_fields(fs.drop_last(), pretty, ind) + (if fs.len() > 1 {
            separator(pretty, ind)
        } else {
            Seq::empty()
        }) + test_render_field(fs.last(), pretty, ind)
    }
}

/// The text of an object entry: `"<key>": <value>`.
pub open spec fn test_render_field(f: (String, TestJSON), pretty: bool, ind: nat) -> Seq<char>
    decreases f,
{
    quoted(f.0@) + seq![':', ' '] + test_render(f.1, pretty, ind)
}

/// The node `r` of `nodes` mirrors the tree `t` node for node: `true` and `false` are those
/// values, an array holds the nodes that mirror the elements of `t` in order, and an object
/// holds fields whose keys are strings of the keys of `t` and whose values mirror its values.
pub open spec fn mirrors(nodes: Seq<JSON>, r: nat, t: TestJSON) -> bool
    decreases t,
{
    r < nodes.len() && match t {
        TestJSON::True => nodes[r as int] is True,
        TestJSON::False => nodes[r as int] is False,
        TestJSON::Array(ts) => nodes[r as int] matches JSON::Array(rs) && mirrors_seq(nodes, rs@, ts@),
        TestJSON::Object(fs) => nodes[r as int] matches JSON::Object(rs) && mirrors_fields(nodes, rs@, fs@),
    }
}

/// The nodes `rs` of `nodes` mirror the trees `ts`, one for one.
pub open spec fn mirrors_seq(nodes: Seq<JSON>, rs: Seq<Index>, ts: Seq<TestJSON>) -> bool
    decreases ts,
{
    rs.len() == ts.len() && (ts.len() == 0 || (mirrors_seq(nodes, rs.drop_last(), ts.drop_last()) && mirrors(
        nodes,
        rs.last().0 as nat,
        ts.last(),
    )))
}

/// The nodes `rs` of `nodes` are fields that mirror the entries `fs`, one for one.
pub open spec fn mirrors_fields(nodes: Seq<JSON>, rs: Seq<Index>, fs: Seq<(String, TestJSON)>) -> bool
    decreases fs,
{
    rs.len() == fs.len() && (fs.len() == 0 || (mirrors_fields(nodes, rs.drop_last(), fs.drop_last())
        && mirrors_field(nodes, rs.last().0 as nat, fs.last())))
}

/// The node `r` of `nodes` is a field whose key is a string of the key of `f` and whose value
/// mirrors the value of `f`.
pub open spec fn mirrors_field(nodes: Seq<JSON>, r: nat, f: (String, TestJSON)) -> bool
    decreases f,
{
    r < nodes.len() && (nodes[r as int] matches JSON::Field(k, v) && k.0 < nodes.len() && (nodes[k.0 as int] matches JSON::Str(s)
        && s@ == f.0@) && mirrors(nodes, v.0 as nat, f.1))
}

/// Adding nodes to a map leaves the nodes already there mirroring what they mirrored.
proof fn lemma_frame_mirrors(n1: Seq<JSON>, n2: Seq<JSON>, r: nat, t: TestJSON)
    requires
        extends(n2, n1),
        mirrors(n1, r, t),
    ensures
        mirrors(n2, r, t),
    decreases t,
{
    assert(n2[r as int] == n1[r as int]);
    match t {
        TestJSON::Array(ts) => {
            let rs = n1[r as int]->Array_0;
            lemma_frame_mirrors_seq(n1, n2, rs@, ts@);
        },
        TestJSON::Object(fs) => {
            let rs = n1[r as int]->Object_0;
            lemma_frame_mirrors_fields(n1, n2, rs@, fs@);
        },
        _ => {},
    }
}

proof fn lemma_frame_mirrors_seq(n1: Seq<JSON>, n2: Seq<JSON>, rs: Seq<Index>, ts: Seq<TestJSON>)
    requires
        extends(n2, n1),
        mirrors_seq(n1, rs, ts),
    ensures
        mirrors_seq(n2, rs, ts),
    decreases ts,
{
    if ts.len() > 0 {
        lemma_frame_mirrors_seq(n1, n2, rs.drop_last(), ts.drop_last());
        lemma_frame_mirrors(n1, n2, rs.last().0 as nat, ts.last());
    }
}

proof fn lemma_frame_mirrors_fields(n1: Seq<JSON>, n2: Seq<JSON>, rs: Seq<Index>, fs: Seq<(String, TestJSON)>)
    requires
        extends(n2, n1),
        mirrors_fields(n1, rs, fs),
    ensures
        mirrors_fields(n2, rs, fs),
    decreases fs,
{
    if fs.len() > 0 {
        lemma_frame_mirrors_fields(n1, n2, rs.drop_last(), fs.drop_last());
        let r = rs.last().0 as nat;
        let f = fs.last();
        assert(mirrors_field(n1, r, f));
        let k = n1[r as int]->Field_0;
        let v = n1[r as int]->Field_1;
        assert(n2[r as int] == n1[r as int]);
        assert(n2[k.0 as int] == n1[k.0 as int]);
        lemma_frame_mirrors(n1, n2, v.0 as nat, f.1);
        assert(mirrors_field(n2, r, f));
    }
}

/// The number of nodes that adding a tree to a node map creates.
pub open spec fn node_count(t: TestJSON) -> nat
    decreases t,
{
    match t {
        TestJSON::True => 1,
        TestJSON::False => 1,
        TestJSON::Array(ts) => 1 + node_count_seq(ts@),
        TestJSON::Object(fs) => 1 + node_count_fields(fs@),
    }
}

pub open spec fn node_count_seq(ts: Seq<TestJSON>) -> nat
    decreases ts,
{
    if ts.len() == 0 {
        0
    } else {
        node_count_seq(ts.drop_last()) + node_count(ts.last())
    }
}

pub open spec fn node_count_fields(fs: Seq<(String, TestJSON)>) -> nat
    decreases fs,
{
    if fs.len() == 0 {
        0
    } else {
        node_count_fields(fs.drop_last()) + node_count_field(fs.last())
    }
}

pub open spec fn node_count_field(f: (String, TestJSON)) -> nat
    decreases f,
{
    2 + node_count(f.1)
}

/// `n2` holds the nodes of `n1` at the same references, and possibly more after them.
pub open spec fn extends(n2: Seq<JSON>, n1: Seq<JSON>) -> bool {
    n1.len() <= n2.len() && forall|i: int| 0 <= i < n1.len() ==> #[trigger] n2[i] == n1[i]
}

/// Adding nodes to a map leaves the renderings of the nodes already there unchanged.
pub proof fn lemma_frame_ref(n1: Seq<JSON>, n2: Seq<JSON>, id: nat, pretty: bool, ind: nat)
    requires
        extends(n2, n1),
        id < n1.len(),
    ensures
        render_ref(n2, id, pretty, ind) == render_ref(n1, id, pretty, ind),
    decreases id + 1, 0nat, 0nat,
{
    assert(n2[id as int] == n1[id as int]);
    lemma_frame_node(n1, n2, n1[id as int], id, pretty, ind);
}

proof fn lemma_frame_node(n1: Seq<JSON>, n2: Seq<JSON>, n: JSON, bound: nat, pretty: bool, ind: nat)
    requires
        extends(n2, n1),
        bound <= n1.len(),
    ensures
        render_node(n2, n, bound, pretty, ind) == render_node(n1, n, bound, pretty, ind),
    decreases bound, 1nat, 0nat,
{
    match n {
        JSON::Field(k, v) => {
            if k.0 < bound {
                lemma_frame_ref(n1, n2, k.0 as nat, pretty, ind);
            }
            if v.0 < bound {
                lemma_frame_ref(n1, n2, v.0 as nat, pretty, ind);
            }
        },
        JSON::Array(cs) => {
            lemma_frame_refs(n1, n2, cs@, bound, pretty, child_indent(pretty, ind));
        },
        JSON::Object(cs) => {
            lemma_frame_refs(n1, n2, cs@, bound, pretty, child_indent(pretty, ind));
        },
        _ => {},
    }
}

proof fn lemma_frame_refs(
    n1: Seq<JSON>,
    n2: Seq<JSON>,
    cs: Seq<Index>,
    bound: nat,
    pretty: bool,
    ind: nat,
)
    requires
        extends(n2, n1),
        bound <= n1.len(),
    ensures
        render_refs(n2, cs, bound, pretty, ind) == render_refs(n1, cs, bound, pretty, ind),
    decreases bound, 0nat, cs.len(),
{
    if cs.len() > 0 {
        lemma_frame_refs(n1, n2, cs.drop_last(), bound, pretty, ind);
        if cs.last().0 < bound {
            lemma_frame_ref(n1, n2, cs.last().0 as nat, pretty, ind);
        }
    }
}

/// Adding a node whose children are already in a well-formed map keeps the map well-formed.
proof fn lemma_wf_push(nodes: Seq<JSON>, n: JSON)
    requires
        map_wf(nodes),
        children_below(n, nodes.len()),
    ensures
        map_wf(nodes.push(n)),
        extends(nodes.push(n), nodes),
{
    let n2 = nodes.push(n);
    assert forall|i: int, j: int|
        0 <= i < n2.len() && 0 <= j < node_children(n2[i]).len() implies #[trigger] node_children(
        n2[i],
    )[j].0 < i by {
        if i < nodes.len() {
            assert(n2[i] == nodes[i]);
        }
    }
}

/// The references of a list render as the list of trees they were built from.
proof fn lemma_refs_render(nodes: Seq<JSON>, cs: Seq<Index>, ts: Seq<TestJSON>, bound: nat, pretty: bool, ind: nat)
    requires
        cs.len() == ts.len(),
        forall|m: int| 0 <= m < cs.len() ==> #[trigger] cs[m].0 < bound,
        forall|m: int, p: bool, i: nat|
            0 <= m < cs.len() ==> #[trigger] render_ref(nodes, cs[m].0 as nat, p, i) == test_render(
                ts[m],
                p,
                i,
            ),
    ensures
        render_refs(nodes, cs, bound, pretty, ind) == test_render_seq(ts, pretty, ind),
    decreases cs.len(),
{
    if cs.len() > 0 {
        assert forall|m: int| 0 <= m < cs.drop_last().len() implies #[trigger] cs.drop_last()[m].0 < bound by {
            assert(cs.drop_last()[m] == cs[m]);
        }
        assert forall|m: int, p: bool, i: nat|
            0 <= m < cs.drop_last().len() implies #[trigger] render_ref(nodes, cs.drop_last()[m].0 as nat, p, i)
            == test_render(ts.drop_last()[m], p, i) by {
            assert(cs.drop_last()[m] == cs[m]);
            assert(ts.drop_last()[m] == ts[m]);
            assert(render_ref(nodes, cs[m].0 as nat, p, i) == test_render(ts[m], p, i));
        }
        lemma_refs_render(nodes, cs.drop_last(), ts.drop_last(), bound, pretty, ind);
        assert(cs.last() == cs[cs.len() - 1]);
        assert(render_ref(nodes, cs[cs.len() - 1].0 as nat, pretty, ind) == test_render(ts[ts.len() - 1], pretty, ind));
    }
}

/// The references of an object's fields render as the entries they were built from.
proof fn lemma_fields_render(nodes: Seq<JSON>, cs: Seq<Index>, fs: Seq<(String, TestJSON)>, bound: nat, pretty: bool, ind: nat)
    requires
        cs.len() == fs.len(),
        forall|m: int| 0 <= m < cs.len() ==> #[trigger] cs[m].0 < bound,
        forall|m: int, p: bool, i: nat|
            0 <= m < cs.len() ==> #[trigger] render_ref(nodes, cs[m].0 as nat, p, i) == test_render_field(
                fs[m],
                p,
                i,
            ),
    ensures
        render_refs(nodes, cs, bound, pretty, ind) == test_render_fields(fs, pretty, ind),
    decreases cs.len(),
{
    if cs.len() > 0 {
        assert forall|m: int| 0 <= m < cs.drop_last().len() implies #[trigger] cs.drop_last()[m].0 < bound by {
            assert(cs.drop_last()[m] == cs[m]);
        }
        assert forall|m: int, p: bool, i: nat|
            0 <= m < cs.drop_last().len() implies #[trigger] render_ref(nodes, cs.drop_last()[m].0 as nat, p, i)
            == test_render_field(fs.drop_last()[m], p, i) by {
            assert(cs.drop_last()[m] == cs[m]);
            assert(fs.drop_last()[m] == fs[m]);
            assert(render_ref(nodes, cs[m].0 as nat, p, i) == test_render_field(fs[m], p, i));
        }
        lemma_fields_render(nodes, cs.drop_last(), fs.drop_last(), bound, pretty, ind);
        assert(cs.last() == cs[cs.len() - 1]);
        assert(render_ref(nodes, cs[cs.len() - 1].0 as nat, pretty, ind) == test_render_field(fs[fs.len() - 1], pretty, ind));
    }
}

impl TestJSON {
    /// Adds the nodes of this tree to `map`, children before parents, and returns the reference
    /// of its root.
    fn recursive_add_node_to_map(&self, map: &mut VecNodeMap<JSON>) -> (r: Index)
        requires
            map_wf(old(map).spec_nodes()),
            old(map).spec_nodes().len() + node_count(*self) < usize::MAX,
        ensures
            map_wf(final(map).spec_nodes()),
            extends(final(map).spec_nodes(), old(map).spec_nodes()),
            final(map).spec_nodes().len() == old(map).spec_nodes().len() + node_count(*self),
            final(map).spec_root() == old(map).spec_root(),
            old(map).spec_nodes().len() <= r.0 < final(map).spec_nodes().len(),
            forall|p: bool, i: nat|
                #[trigger] render_ref(final(map).spec_nodes(), r.0 as nat, p, i) == test_render(
                    *self,
                    p,
                    i,
                ),
        mirrors(final(map).spec_nodes(), r.0 as nat, *self),
        decreases self,
    {
        let ghost start = map.spec_nodes();
        match self {
            TestJSON::True => {
                proof {
                    lemma_wf_push(map.spec_nodes(), JSON::True);
                }
                map.add_node(JSON::True)
            },
            TestJSON::False => {
                proof {
                    lemma_wf_push(map.spec_nodes(), JSON::False);
                }
                map.add_node(JSON::False)
            },
            TestJSON::Array(child_nodes) => {
                let mut child_refs: Vec<Index> = Vec::new();
                let mut i: usize = 0;
                while i < child_nodes.len()
                    invariant
                        i <= child_nodes@.len(),
                        *self == TestJSON::Array(*child_nodes),
                        map_wf(map.spec_nodes()),
                        extends(map.spec_nodes(), start),
                        map.spec_root() == old(map).spec_root(),
                        start == old(map).spec_nodes(),
                        map.spec_nodes().len() == start.len() + node_count_seq(
                            child_nodes@.take(i as int),
                        ),
                        start.len() + node_count(*self) < usize::MAX,
                        node_count(*self) == 1 + node_count_seq(child_nodes@),
                        child_refs@.len() == i,
                        forall|m: int|
                            0 <= m < i ==> #[trigger] child_refs@[m].0 < map.spec_nodes().len(),
                        forall|m: int, p: bool, k: nat|
                            0 <= m < i ==> #[trigger] render_ref(
                                map.spec_nodes(),
                                child_refs@[m].0 as nat,
                                p,
                                k,
                            ) == test_render(child_nodes@[m], p, k),
                        mirrors_seq(map.spec_nodes(), child_refs@, child_nodes@.take(i as int)),
                    decreases child_nodes@.len() - i,
                {
                    proof {
                        assert(decreases_to!(*self => self->Array_0));
                        assert(decreases_to!(*child_nodes => child_nodes@));
                        assert(decreases_to!(child_nodes@ => child_nodes@[i as int]));
                        assert(child_nodes@.take(i + 1).drop_last() =~= child_nodes@.take(i as int));
                        assert(child_nodes@.take(i + 1).last() == child_nodes@[i as int]);
                        lemma_count_seq_prefix(child_nodes@, i + 1);
                    }
                    let ghost before = map.spec_nodes();
                    let c = child_nodes[i].recursive_add_node_to_map(map);
                    proof {
                        assert forall|m: int, p: bool, k: nat|
                            0 <= m < i implies #[trigger] render_ref(
                                map.spec_nodes(),
                                child_refs@[m].0 as nat,
                                p,
                                k,
                            ) == test_render(child_nodes@[m], p, k) by {
                            lemma_frame_ref(before, map.spec_nodes(), child_refs@[m].0 as nat, p, k);
                        }
                        assert forall|j: int| 0 <= j < start.len() implies #[trigger] map.spec_nodes()[j] == start[j] by {
                            assert(before[j] == start[j]);
                        }
                        lemma_frame_mirrors_seq(before, map.spec_nodes(), child_refs@, child_nodes@.take(i as int));
                    }
                    let ghost old_refs = child_refs@;
                    child_refs.push(c);
                    proof {
                        assert(child_refs@.drop_last() =~= old_refs);
                        assert(mirrors_seq(map.spec_nodes(), child_refs@, child_nodes@.take(i + 1)));
                    }
                    i = i + 1;
                }
                proof {
                    assert(child_nodes@.take(i as int) =~= child_nodes@);
                }
                let ghost nodes = map.spec_nodes();
                let node = JSON::Array(child_refs);
                proof {
                    assert forall|j: int| 0 <= j < node_children(node).len() implies #[trigger] node_children(node)[j].0 < nodes.len() by {
                        assert(node_children(node)[j] == child_refs@[j]);
                    }
                    lemma_wf_push(nodes, node);
                }
                let r = map.add_node(node);
                proof {
                    let n2 = map.spec_nodes();
                    assert forall|p: bool, k: nat| #[trigger] render_ref(n2, r.0 as nat, p, k) == test_render(*self, p, k) by {
                        assert forall|m: int, p2: bool, k2: nat|
                            0 <= m < child_refs@.len() implies #[trigger] render_ref(n2, child_refs@[m].0 as nat, p2, k2)
                            == test_render(child_nodes@[m], p2, k2) by {
                            lemma_frame_ref(nodes, n2, child_refs@[m].0 as nat, p2, k2);
                        }
                        lemma_refs_render(n2, child_refs@, child_nodes@, r.0 as nat, p, child_indent(p, k));
                        assert(n2[r.0 as int] == node);
                    }
                    lemma_frame_mirrors_seq(nodes, n2, child_refs@, child_nodes@);
                    assert(n2[r.0 as int] == node);
                    assert forall|j: int| 0 <= j < start.len() implies #[trigger] n2[j] == start[j] by {
                        assert(nodes[j] == start[j]);
                    }
                }
                r
            },
            TestJSON::Object(fields) => {
                let mut children: Vec<Index> = Vec::new();
                let mut i: usize = 0;
                while i < fields.len()
                    invariant
                        i <= fields@.len(),
                        *self == TestJSON::Object(*fields),
                        map_wf(map.spec_nodes()),
                        extends(map.spec_nodes(), start),
                        map.spec_root() == old(map).spec_root(),
                        start == old(map).spec_nodes(),
                        map.spec_nodes().len() == start.len() + node_count_fields(
                            fields@.take(i as int),
                        ),
                        start.len() + node_count(*self) < usize::MAX,
                        node_count(*self) == 1 + node_count_fields(fields@),
                        children@.len() == i,
                        forall|m: int|
                            0 <= m < i ==> #[trigger] children@[m].0 < map.spec_nodes().len(),
                        forall|m: int, p: bool, k: nat|
                            0 <= m < i ==> #[trigger] render_ref(
                                map.spec_nodes(),
                                children@[m].0 as nat,
                                p,
                                k,
                            ) == test_render_field(fields@[m], p, k),
                        mirrors_fields(map.spec_nodes(), children@, fields@.take(i as int)),
                    decreases fields@.len() - i,
                {
                    proof {
                        assert(decreases_to!(*self => self->Object_0));
                        assert(decreases_to!(*fields => fields@));
                        assert(decreases_to!(fields@ => fields@[i as int]));
                        assert(decreases_to!(fields@[i as int] => fields@[i as int].1));
                        assert(fields@.take(i + 1).drop_last() =~= fields@.take(i as int));
                        assert(fields@.take(i + 1).last() == fields@[i as int]);
                        lemma_count_fields_prefix(fields@, i + 1);
                    }
                    let ghost before = map.spec_nodes();
                    let (key, value) = &fields[i];
                    // Add both child nodes
                    proof {
                        assert(*value == fields@[i as int].1);
                        assert(node_count_fields(fields@.take(i + 1)) == node_count_fields(
                            fields@.take(i as int),
                        ) + node_count_field(fields@[i as int]));
                        assert(node_count_field(fields@[i as int]) == 2 + node_count(*value));
                    }
                    let key_node = JSON::Str(key.clone());
                    proof {
                        lemma_wf_push(map.spec_nodes(), key_node);
                    }
                    let s = map.add_node(key_node);
                    let ghost after_key = map.spec_nodes();
                    let v = value.recursive_add_node_to_map(map);
                    let ghost after_value = map.spec_nodes();
                    // Combine the two nodes into a field
                    let field = JSON::Field(s, v);
                    proof {
                        assert(node_children(field)[0] == s);
                        assert(node_children(field)[1] == v);
                        lemma_wf_push(map.spec_nodes(), field);
                    }
                    let f = map.add_node(field);
                    proof {
                        let n2 = map.spec_nodes();
                        assert(extends(n2, before)) by {
                            assert forall|j: int| 0 <= j < before.len() implies #[trigger] n2[j] == before[j] by {
                                assert(after_key[j] == before[j]);
                                assert(after_value[j] == after_key[j]);
                            }
                        }
                        assert(extends(n2, after_key)) by {
                            assert forall|j: int| 0 <= j < after_key.len() implies #[trigger] n2[j] == after_key[j] by {
                                assert(after_value[j] == after_key[j]);
                            }
                        }
                        assert forall|m: int, p: bool, k: nat|
                            0 <= m < i implies #[trigger] render_ref(n2, children@[m].0 as nat, p, k)
                            == test_render_field(fields@[m], p, k) by {
                            lemma_frame_ref(before, n2, children@[m].0 as nat, p, k);
                        }
                        assert forall|p: bool, k: nat| #[trigger] render_ref(n2, f.0 as nat, p, k)
                            == test_render_field(fields@[i as int], p, k) by {
                            lemma_frame_ref(after_key, n2, s.0 as nat, p, k);
                            lemma_frame_ref(after_value, n2, v.0 as nat, p, k);
                            assert(render_ref(after_value, v.0 as nat, p, k) == test_render(*value, p, k));
                            assert(n2[s.0 as int] == after_key[s.0 as int]);
                            assert(n2[f.0 as int] == field);
                            assert(render_ref(n2, s.0 as nat, p, k) == quoted(key@));
                        }
                        assert forall|j: int| 0 <= j < start.len() implies #[trigger] n2[j] == start[j] by {
                            assert(before[j] == start[j]);
                        }
                        lemma_frame_mirrors_fields(before, n2, children@, fields@.take(i as int));
                        lemma_frame_mirrors(after_value, n2, v.0 as nat, *value);
                        assert(n2[s.0 as int] == after_key[s.0 as int]);
                        assert(mirrors_field(n2, f.0 as nat, fields@[i as int]));
                    }
                    let ghost old_children = children@;
                    children.push(f);
                    proof {
                        assert(children@.drop_last() =~= old_children);
                        assert(mirrors_fields(map.spec_nodes(), children@, fields@.take(i + 1)));
                    }
                    i = i + 1;
                }
                proof {
                    assert(fields@.take(i as int) =~= fields@);
                }
                let ghost nodes = map.spec_nodes();
                let node = JSON::Object(children);
                proof {
                    assert forall|j: int| 0 <= j < node_children(node).len() implies #[trigger] node_children(node)[j].0 < nodes.len() by {
                        assert(node_children(node)[j] == children@[j]);
                    }
                    lemma_wf_push(nodes, node);
                }
                let r = map.add_node(node);
                proof {
                    let n2 = map.spec_nodes();
                    assert forall|p: bool, k: nat| #[trigger] render_ref(n2, r.0 as nat, p, k) == test_render(*self, p, k) by {
                        assert forall|m: int, p2: bool, k2: nat|
                            0 <= m < children@.len() implies #[trigger] render_ref(n2, children@[m].0 as nat, p2, k2)
                            == test_render_field(fields@[m], p2, k2) by {
                            lemma_frame_ref(nodes, n2, children@[m].0 as nat, p2, k2);
                        }
                        lemma_fields_render(n2, children@, fields@, r.0 as nat, p, child_indent(p, k));
                        assert(n2[r.0 as int] == node);
                    }
                    lemma_frame_mirrors_fields(nodes, n2, children@, fields@);
                    assert(n2[r.0 as int] == node);
                    assert forall|j: int| 0 <= j < start.len() implies #[trigger] n2[j] == start[j] by {
                        assert(nodes[j] == start[j]);
                    }
                }
                r
            },
        }
    }

    /// Turn this node into a [`VecNodeMap`] which contains the corresponding [`JSON`] node as
    /// root. This also adds all the children to that VecNodeMap.
    pub fn build_node_map(&self) -> (m: VecNodeMap<JSON>)
        requires
            node_count(*self) + 1 < usize::MAX,
        ensures
            m.renderable(),
            map_wf(m.spec_nodes()),
            forall|p: bool, i: nat|
                #[trigger] render_ref(m.spec_nodes(), m.spec_root(), p, i) == test_render(*self, p, i),
            forall|p: bool| #[trigger] map_text(m.spec_nodes(), m.spec_root(), p) == test_render(*self, p, 0),
            mirrors(m.spec_nodes(), m.spec_root(), *self),
    {
        let mut node_map = VecNodeMap::with_root(JSON::Object(Vec::new()));
        proof {
            let nodes = node_map.spec_nodes();
            assert forall|i: int, j: int|
                0 <= i < nodes.len() && 0 <= j < node_children(nodes[i]).len() implies #[trigger] node_children(
                nodes[i],
            )[j].0 < i by {
                assert(nodes[i] == nodes[0]);
            }
        }
        let root = self.recursive_add_node_to_map(&mut node_map);
        node_map.set_root(root);
        proof {
            let nodes = node_map.spec_nodes();
            let r = node_map.spec_root();
            lemma_wf_acyclic(nodes);
            assert forall|p: bool| #[trigger] map_text(nodes, r, p) == test_render(*self, p, 0) by {
                assert forall|j: int| 0 <= j < node_children(nodes[r as int]).len() implies #[trigger] node_children(
                    nodes[r as int],
                )[j].0 < r by {}
                assert(Seq::<char>::empty() =~= spaces(0));
                lemma_text_node_renders(nodes, nodes[r as int], r, nodes.len(), p, 0);
                assert(render_ref(nodes, r, p, 0) == test_render(*self, p, 0));
            }
        }
        node_map
    }
}

proof fn lemma_count_seq_prefix(ts: Seq<TestJSON>, k: int)
    requires
        0 <= k <= ts.len(),
    ensures
        node_count_seq(ts.take(k)) <= node_count_seq(ts),
    decreases ts.len(),
{
    if k == ts.len() {
        assert(ts.take(k) =~= ts);
    } else {
        lemma_count_seq_prefix(ts.drop_last(), k);
        assert(ts.drop_last().take(k) =~= ts.take(k));
    }
}

proof fn lemma_count_fields_prefix(fs: Seq<(String, TestJSON)>, k: int)
    requires
        0 <= k <= fs.len(),
    ensures
        node_count_fields(fs.take(k)) <= node_count_fields(fs),
    decreases fs.len(),
{
    if k == fs.len() {
        assert(fs.take(k) =~= fs);
    } else {
        lemma_count_fields_prefix(fs.drop_last(), k);
        assert(fs.drop_last().take(k) =~= fs.take(k));
    }
}

} // verus!
