//! Another representation of JSON trees (where nodes own their children), useful for unit tests
//! and debugging.

use vstd::prelude::*;

use super::json::Json;
use crate::arena::Arena;

verus! {

/// A copy of [`Json`] where nodes own their children
#[derive(Debug, PartialEq, Eq, Hash)]
pub enum TestJson {
    /// The constant literal `true`.  Converts to [`Json::True`]
    True,
    /// The constant literal `false`.  Converts to [`Json::False`]
    False,
    /// The constant literal `null`.  Converts to [`Json::Null`]
    Null,
    /// A JSON array `[child1, child2, ..., childN]`.  Converts to [`Json::Array`]
    Array(Vec<TestJson>),
    /// A JSON object `{key1: child1, key2: child2, ..., keyN: childN}`.  Converts to a
    /// [`Json::Object`] with `N` [`Json::Field`]s containing the key/value pairs.
    Object(Vec<(String, TestJson)>),
    /// A JSON 'String' literal
    Str(String),
}

/// `j` is the [`Json`] tree that `t` describes: the same values, the same string contents, and
/// every object entry a field of a string key and its value.
pub open spec fn represents<'a>(t: TestJson, j: Json<'a>) -> bool
    decreases t,
{
    match t {
        TestJson::True => j is True,
        TestJson::False => j is False,
        TestJson::Null => j is Null,
        TestJson::Str(s) => j matches Json::Str(s2) && s2@ == s@,
        TestJson::Array(ts) => j is Array && all_represent(ts@, j->Array_0@),
        TestJson::Object(fs) => j is Object && entries_represent(fs@, j->Object_0@),
    }
}

/// Each of `ts` represents the node at the same position of `cs`.
pub open spec fn all_represent<'a>(ts: Seq<TestJson>, cs: Seq<&'a Json<'a>>) -> bool
    decreases ts,
{
    ts.len() == cs.len() && (ts.len() == 0 || (all_represent(ts.drop_last(), cs.drop_last())
        && represents(ts.last(), *cs.last())))
}

/// Each of the entries `fs` represents the field at the same position of `cs`.
pub open spec fn entries_represent<'a>(fs: Seq<(String, TestJson)>, cs: Seq<&'a Json<'a>>) -> bool
    decreases fs,
{
    fs.len() == cs.len() && (fs.len() == 0 || (entries_represent(fs.drop_last(), cs.drop_last())
        && entry_represents(fs.last(), *cs.last())))
}

/// `f` is the object field that the entry `e` describes: a field of a string key and a value.
pub open spec fn entry_represents<'a>(e: (String, TestJson), f: Json<'a>) -> bool
    decreases e,
{
    f matches Json::Field(k, v) && (*k matches Json::Str(ks) && ks@ == e.0@) && represents(e.1, *v)
}

proof fn lemma_all_represent_index<'a>(ts: Seq<TestJson>, cs: Seq<&'a Json<'a>>, i: int)
    requires
        all_represent(ts, cs),
        0 <= i < ts.len(),
    ensures
        represents(ts[i], *cs[i]),
    decreases ts.len(),
{
    if i < ts.len() - 1 {
        lemma_all_represent_index(ts.drop_last(), cs.drop_last(), i);
    }
}

proof fn lemma_entries_represent_index<'a>(fs: Seq<(String, TestJson)>, cs: Seq<&'a Json<'a>>, i: int)
    requires
        entries_represent(fs, cs),
        0 <= i < fs.len(),
    ensures
        entry_represents(fs[i], *cs[i]),
    decreases fs.len(),
{
    if i < fs.len() - 1 {
        lemma_entries_represent_index(fs.drop_last(), cs.drop_last(), i);
    }
}

impl TestJson {
    /// Convert this node into a standard [`Json`] tree, where all the nodes are allocated in a
    /// given [`Arena`]
    pub fn add_to_arena<'arena>(&self, arena: &'arena Arena<Json<'arena>>) -> (r: &'arena Json<
        'arena,
    >)
        ensures
            represents(*self, *r),
        decreases self,
    {
        match self {
            TestJson::True => arena.alloc_node(Json::True),
            TestJson::False => arena.alloc_node(Json::False),
            TestJson::Null => arena.alloc_node(Json::Null),
            TestJson::Str(s) => arena.alloc_node(Json::Str(s.clone())),
            TestJson::Array(children) => {
                let mut child_vec: Vec<&'arena Json<'arena>> = Vec::new();
                let mut i: usize = 0;
                while i < children.len()
                    invariant
                        i <= children@.len(),
                        *self == TestJson::Array(*children),
                        all_represent(children@.take(i as int), child_vec@),
                    decreases children@.len() - i,
                {
                    proof {
                        assert(decreases_to!(*self => self->Array_0));
                        assert(decreases_to!(*children => children@));
                        assert(decreases_to!(children@ => children@[i as int]));
                    }
                    let c = children[i].add_to_arena(arena);
                    let ghost before = child_vec@;
                    child_vec.push(c);
                    proof {
                        assert(children@.take(i + 1).drop_last() =~= children@.take(i as int));
                        assert(child_vec@.drop_last() =~= before);
                    }
                    i = i + 1;
                }
                proof {
                    assert(children@.take(i as int) =~= children@);
                }
                arena.alloc_node(Json::Array(child_vec))
            },
            TestJson::Object(fields) => {
                let mut children: Vec<&'arena Json<'arena>> = Vec::new();
                let mut i: usize = 0;
                while i < fields.len()
                    invariant
                        i <= fields@.len(),
                        *self == TestJson::Object(*fields),
                        entries_represent(fields@.take(i as int), children@),
                    decreases fields@.len() - i,
                {
                    proof {
                        assert(decreases_to!(*self => self->Object_0));
                        assert(decreases_to!(*fields => fields@));
                        assert(decreases_to!(fields@ => fields@[i as int]));
                        assert(decreases_to!(fields@[i as int] => fields@[i as int].1));
                    }
                    let (key, value) = &fields[i];
                    // Add both child nodes
                    let s = arena.alloc_node(Json::Str(key.clone()));
                    let v = value.add_to_arena(arena);
                    // Combine the two nodes into a field
                    let f = arena.alloc_node(Json::Field(s, v));
                    let ghost before = children@;
                    children.push(f);
                    proof {
                        assert(*key == fields@[i as int].0);
                        assert(*value == fields@[i as int].1);
                        assert(entry_represents(fields@[i as int], *f));
                        assert(fields@.take(i + 1).last() == fields@[i as int]);
                        assert(fields@.take(i + 1).drop_last() =~= fields@.take(i as int));
                        assert(children@.drop_last() =~= before);
                    }
                    i = i + 1;
                }
                proof {
                    assert(fields@.take(i as int) =~= fields@);
                }
                arena.alloc_node(Json::Object(children))
            },
        }
    }

    /// Whether `other` is the [`Json`] tree that this node describes.
    pub fn eq_json(&self, other: &Json) -> (b: bool)
        ensures
            b == represents(*self, *other),
        decreases self,
    {
        match (self, other) {
            (TestJson::True, Json::True) => true,
            (TestJson::False, Json::False) => true,
            (TestJson::Null, Json::Null) => true,
            (TestJson::Array(test_children), Json::Array(children)) => {
                if test_children.len() != children.len() {
                    return false;
                }
                let mut i: usize = 0;
                while i < children.len()
                    invariant
                        i <= children@.len(),
                        children@.len() == test_children@.len(),
                        *self == TestJson::Array(*test_children),
                        *other == Json::Array(*children),
                        all_represent(test_children@.take(i as int), children@.take(i as int)),
                    decreases children@.len() - i,
                {
                    proof {
                        assert(decreases_to!(*self => self->Array_0));
                        assert(decreases_to!(*test_children => test_children@));
                        assert(decreases_to!(test_children@ => test_children@[i as int]));
                    }
                    if !test_children[i].eq_json(children[i]) {
                        proof {
                            if all_represent(test_children@, children@) {
                                lemma_all_represent_index(test_children@, children@, i as int);
                            }
                        }
                        return false;
                    }
                    proof {
                        assert(test_children@.take(i + 1).drop_last() =~= test_children@.take(
                            i as int,
                        ));
                        assert(children@.take(i + 1).drop_last() =~= children@.take(i as int));
                    }
                    i = i + 1;
                }
                proof {
                    assert(test_children@.take(i as int) =~= test_children@);
                    assert(children@.take(i as int) =~= children@);
                }
                true
            },
            (TestJson::Object(test_fields), Json::Object(fields)) => {
                if test_fields.len() != fields.len() {
                    return false;
                }
                let mut i: usize = 0;
                while i < fields.len()
                    invariant
                        i <= fields@.len(),
                        fields@.len() == test_fields@.len(),
                        *self == TestJson::Object(*test_fields),
                        *other == Json::Object(*fields),
                        entries_represent(test_fields@.take(i as int), fields@.take(i as int)),
                    decreases fields@.len() - i,
                {
                    proof {
                        assert(decreases_to!(*self => self->Object_0));
                        assert(decreases_to!(*test_fields => test_fields@));
                        assert(decreases_to!(test_fields@ => test_fields@[i as int]));
                        assert(decreases_to!(test_fields@[i as int] => test_fields@[i as int].1));
                    }
                    let (k1, v1) = &test_fields[i];
                    let equal = match fields[i] {
                        Json::Field(key, v2) => match key {
                            Json::Str(k2) => *k1 == *k2 && v1.eq_json(v2),
                            _ => false,
                        },
                        _ => false,
                    };
                    if !equal {
                        proof {
                            if entries_represent(test_fields@, fields@) {
                                lemma_entries_represent_index(test_fields@, fields@, i as int);
                            }
                        }
                        return false;
                    }
                    proof {
                        assert(*k1 == test_fields@[i as int].0);
                        assert(*v1 == test_fields@[i as int].1);
                        assert(entry_represents(test_fields@[i as int], *fields@[i as int]));
                        assert(test_fields@.take(i + 1).last() == test_fields@[i as int]);
                        assert(fields@.take(i + 1).last() == fields@[i as int]);
                        assert(test_fields@.take(i + 1).drop_last() =~= test_fields@.take(
                            i as int,
                        ));
                        assert(fields@.take(i + 1).drop_last() =~= fields@.take(i as int));
                    }
                    i = i + 1;
                }
                proof {
                    assert(test_fields@.take(i as int) =~= test_fields@);
                    assert(fields@.take(i as int) =~= fields@);
                }
                true
            },
            (TestJson::Str(s1), Json::Str(s2)) => *s1 == *s2,
            _ => false,
        }
    }
}

} // verus!
