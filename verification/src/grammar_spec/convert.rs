//! Compiling a [`SpecGrammar`] (as read from a grammar file) into a full [`Grammar`].

use std::ops::RangeInclusive;

use regex_syntax::hir::{Class, HirKind};
use vstd::prelude::*;
use vstd::string::*;

use super::SpecGrammar;
use crate::tokenizer::str_iter::lemma_encode_injective;
use vstd::utf8::{encode_utf8, encode_utf8_valid_utf8, valid_utf8};
use crate::char_set::CharSet;
use crate::grammar::{regex_compiles, CompiledRegex, Grammar, PatternElement, Regexes, Stringy, Token, TokenId, Type, TypeId, TypeInner, Whitespace};

verus! {

/// The ways that compiling a [`SpecGrammar`] into a [`Grammar`] can fail.
#[derive(Debug)]
pub enum ConvertError {
    /// An error occurred whilst compiling a regex provided by the user
    Regex { name_of_type: String, regex: String, inner: regex::Error },
    /// An error occurred whilst compiling a set of chars (as a regex)
    CharSet {
        /// The char set string provided by the user
        source_str: String,
        /// The regex string which was generated from `source_str`
        regex_str: String,
        inner: regex_syntax::Error,
    },
    /// The set of chars provided by the user compiles to a regex which is not a class of
    /// chars (one char alone compiles to that char)
    NotACharClass { source_str: String, regex_str: String },
    /// A type names a child type which doesn't exist
    UnknownChildType { name: String, parent_name: String },
    /// The root type doesn't exist
    UnknownRootType(String),
    /// There is a cycle in the type dependency graph (i.e. a type which is a descendant of
    /// itself); these are the names along the cycle, which starts and ends with the same type
    TypeCycle(Vec<String>),
}

/// The views of a list of strings.
pub open spec fn string_views(v: Seq<String>) -> Seq<Seq<char>> {
    v.map_values(|s: String| s@)
}

/// The position of the first occurrence of `name` in `names`, from `i` on.
pub open spec fn first_index(names: Seq<Seq<char>>, name: Seq<char>, i: int) -> Option<nat>
    decreases names.len() - i,
{
    if i < 0 || i >= names.len() {
        None
    } else if names[i] == name {
        Some(i as nat)
    } else {
        first_index(names, name, i + 1)
    }
}

/// The first occurrence found from `i` on is an occurrence, at or after `i`.
pub proof fn lemma_first_index(names: Seq<Seq<char>>, name: Seq<char>, i: int)
    requires
        0 <= i,
    ensures
        first_index(names, name, i) matches Some(k) ==> i <= k < names.len() && names[k as int] == name,
        first_index(names, name, i) is None ==> forall|k: int| i <= k < names.len() ==> names[k] != name,
    decreases names.len() - i,
{
    if 0 <= i < names.len() && names[i] != name {
        lemma_first_index(names, name, i + 1);
    }
}

/// Finds `name` in `names`.
fn find_name(names: &Vec<String>, name: &String) -> (r: Option<usize>)
    ensures
        match first_index(string_views(names@), name@, 0) {
            Some(k) => r matches Some(x) && x == k,
            None => r is None,
        },
{
    let ghost views = string_views(names@);
    let mut i: usize = 0;
    while i < names.len()
        invariant
            i <= names@.len(),
            views == string_views(names@),
            first_index(views, name@, 0) == first_index(views, name@, i as int),
        decreases names@.len() - i,
    {
        if names[i] == *name {
            return Some(i);
        }
        i = i + 1;
    }
    None
}

/// Maps the names of types to their ids: the position of each name in the list of types.
#[derive(Debug, Clone)]
pub struct TypeMap {
    names: Vec<String>,
}

impl TypeMap {
    /// The names of the types, by id.
    pub closed spec fn names(&self) -> Seq<Seq<char>> {
        string_views(self.names@)
    }

    /// Assigns each type the id of its position in `types`.
    pub fn new(types: Vec<(String, super::Type)>) -> (r: (Vec<(String, super::Type)>, Self))
        ensures
            r.0@ == types@,
            r.1.names() == types@.map_values(|t: (String, super::Type)| t.0@),
    {
        let mut names: Vec<String> = Vec::new();
        let mut i: usize = 0;
        while i < types.len()
            invariant
                i <= types@.len(),
                string_views(names@) == types@.take(i as int).map_values(|t: (String, super::Type)| t.0@),
            decreases types@.len() - i,
        {
            let name = types[i].0.clone();
            let ghost prev = names@;
            names.push(name);
            proof {
                assert(types@.take(i + 1) == types@.take(i as int).push(types@[i as int]));
                assert(string_views(names@) =~= string_views(prev).push(types@[i as int].0@));
                assert(types@.take(i + 1).map_values(|t: (String, super::Type)| t.0@) =~= types@.take(
                    i as int,
                ).map_values(|t: (String, super::Type)| t.0@).push(types@[i as int].0@));
            }
            i = i + 1;
        }
        proof {
            assert(types@.take(types@.len() as int) =~= types@);
        }
        (types, TypeMap { names })
    }

    /// The id of the child type `name` of the type `parent_type_name`.
    pub fn get(&self, name: &String, parent_type_name: &String) -> (r: Result<TypeId, ConvertError>)
        ensures
            match first_index(self.names(), name@, 0) {
                Some(k) => r matches Ok(id) && id.0 == k,
                None => r matches Err(ConvertError::UnknownChildType { name: n, parent_name: p }) && n@ == name@
                    && p@ == parent_type_name@,
            },
    {
        match find_name(&self.names, name) {
            Some(k) => Ok(TypeId(k)),
            None => Err(ConvertError::UnknownChildType { name: name.clone(), parent_name: parent_type_name.clone() }),
        }
    }

    /// The id of the root type `name`.
    pub fn get_root(&self, name: &String) -> (r: Result<TypeId, ConvertError>)
        ensures
            match first_index(self.names(), name@, 0) {
                Some(k) => r matches Ok(id) && id.0 == k,
                None => r matches Err(ConvertError::UnknownRootType(n)) && n@ == name@,
            },
    {
        match find_name(&self.names, name) {
            Some(k) => Ok(TypeId(k)),
            None => Err(ConvertError::UnknownRootType(name.clone())),
        }
    }
}

/// The texts of a list of tokens.
pub open spec fn token_texts(tokens: Seq<Token>) -> Seq<Seq<char>> {
    tokens.map_values(|t: Token| t.spec_text())
}

/// The token texts after asking for the id of `v`, and that id: the position of `v` among
/// the texts, which gain `v` at the end if they do not hold it yet.
pub open spec fn with_token(texts: Seq<Seq<char>>, v: Seq<char>) -> (Seq<Seq<char>>, nat) {
    match first_index(texts, v, 0) {
        Some(k) => (texts, k),
        None => (texts.push(v), texts.len()),
    }
}

/// A mapping from the texts of tokens to their [`TokenId`]s, which are assigned in the order
/// that the texts are first asked for.
#[derive(Debug, Clone)]
pub struct TokenMap {
    tokens: Vec<Token>,
}

impl TokenMap {
    /// The texts of the tokens, by id.
    pub closed spec fn texts(&self) -> Seq<Seq<char>> {
        token_texts(self.tokens@)
    }

    /// A map with no tokens.
    pub fn new() -> (m: Self)
        ensures
            m.texts() == Seq::<Seq<char>>::empty(),
    {
        let m = TokenMap { tokens: Vec::new() };
        proof {
            assert(m.texts() =~= Seq::<Seq<char>>::empty());
        }
        m
    }

    /// Gets the [`TokenId`] corresponding to the token with the text `v`, adding the token if
    /// it isn't there yet.
    pub fn get_id(&mut self, v: String) -> (id: TokenId)
        ensures
            (final(self).texts(), id.0 as nat) == with_token(old(self).texts(), v@),
    {
        let ghost texts = self.texts();
        let mut i: usize = 0;
        while i < self.tokens.len()
            invariant
                i <= self.tokens@.len(),
                texts == token_texts(self.tokens@),
                first_index(texts, v@, 0) == first_index(texts, v@, i as int),
            decreases self.tokens@.len() - i,
        {
            if self.tokens[i].text_is(&v) {
                return TokenId(i);
            }
            i = i + 1;
        }
        let new_id = self.tokens.len();
        self.tokens.push(Token::new(v));
        proof {
            assert(self.texts() =~= texts.push(v@));
        }
        TokenId(new_id)
    }

    /// The tokens, indexed by their ids.
    pub fn into_vec(self) -> (v: Vec<Token>)
        ensures
            token_texts(v@) == self.texts(),
    {
        self.tokens
    }
}

//////////////////////
// TYPE DESCENDANTS //
//////////////////////

/// The names of the child types of a type.
pub open spec fn type_children(t: super::Type) -> Seq<Seq<char>> {
    match t {
        super::Type::Pattern { children, .. } => string_views(children@),
        super::Type::Stringy { .. } => Seq::empty(),
    }
}

/// The ids of the first `n` names of `kids` among `names`, or the first of them which is not
/// there.
pub open spec fn resolve_names(kids: Seq<Seq<char>>, names: Seq<Seq<char>>, n: int) -> Result<Seq<TypeId>, Seq<char>>
    decreases n,
{
    if n <= 0 || n > kids.len() {
        Ok(Seq::empty())
    } else {
        match resolve_names(kids, names, n - 1) {
            Err(e) => Err(e),
            Ok(ids) => match first_index(names, kids[n - 1], 0) {
                Some(k) => Ok(ids.push(TypeId(k as usize))),
                None => Err(kids[n - 1]),
            },
        }
    }
}

/// The ids of the child types of each of the first `n` types, or the first child name which
/// is not a type, with the name of its parent.
pub open spec fn resolve_children(types: Seq<(String, super::Type)>, names: Seq<Seq<char>>, n: int) -> Result<Seq<Seq<TypeId>>, (Seq<char>, Seq<char>)>
    decreases n,
{
    if n <= 0 || n > types.len() {
        Ok(Seq::empty())
    } else {
        match resolve_children(types, names, n - 1) {
            Err(e) => Err(e),
            Ok(ch) => {
                let kids = type_children(types[n - 1].1);
                match resolve_names(kids, names, kids.len() as int) {
                    Ok(ids) => Ok(ch.push(ids)),
                    Err(child) => Err((child, types[n - 1].0@)),
                }
            },
        }
    }
}

/// The position of the first occurrence of `x` in `s`, from `i` on.
pub open spec fn position_of(s: Seq<TypeId>, x: TypeId, i: int) -> Option<nat>
    decreases s.len() - i,
{
    if i < 0 || i >= s.len() {
        None
    } else if s[i] == x {
        Some(i as nat)
    } else {
        position_of(s, x, i + 1)
    }
}

/// The occurrence found from `i` on is one, and there is none when nothing is found.
pub proof fn lemma_position_of(s: Seq<TypeId>, x: TypeId, i: int)
    requires
        0 <= i,
    ensures
        position_of(s, x, i) matches Some(k) ==> i <= k < s.len() && s[k as int] == x,
        position_of(s, x, i) is None <==> forall|k: int| i <= k < s.len() ==> s[k] != x,
    decreases s.len() - i,
{
    if i < s.len() && s[i] != x {
        lemma_position_of(s, x, i + 1);
    }
}

/// The types reachable from `id` through `ch` (the child types of each type), walked depth
/// first, appended to `out` unless `out` holds them already; `stack` holds the types being
/// walked.  A type reached again while it is being walked closes a cycle: the cycle, from that
/// type on the stack to it again, is the error.
pub open spec fn dfs(ch: Seq<Seq<TypeId>>, id: TypeId, stack: Seq<TypeId>, out: Seq<TypeId>) -> Result<Seq<TypeId>, Seq<TypeId>>
    decreases ch.len() - stack.len(), 0int, 0int,
{
    match position_of(stack, id, 0) {
        Some(k) => Err(stack.skip(k as int).push(id)),
        None => if id.0 >= ch.len() || stack.len() >= ch.len() {
            Ok(out)
        } else {
            let out1 = if out.contains(id) {
                out
            } else {
                out.push(id)
            };
            dfs_children(ch, ch[id.0 as int], 0, stack.push(id), out1)
        },
    }
}

/// Walks the types reachable from `kids[i..]` in turn, as [`dfs`] does.
pub open spec fn dfs_children(ch: Seq<Seq<TypeId>>, kids: Seq<TypeId>, i: int, stack: Seq<TypeId>, out: Seq<TypeId>) -> Result<Seq<TypeId>, Seq<TypeId>>
    decreases ch.len() - stack.len(), 1int, kids.len() - i,
{
    if i < 0 || i >= kids.len() || stack.len() > ch.len() {
        Ok(out)
    } else {
        match dfs(ch, kids[i], stack, out) {
            Err(c) => Err(c),
            Ok(o) => dfs_children(ch, kids, i + 1, stack, o),
        }
    }
}

/// The descendants of each of the first `n` types, or the first cycle found.
pub open spec fn all_descendants(ch: Seq<Seq<TypeId>>, n: int) -> Result<Seq<Seq<TypeId>>, Seq<TypeId>>
    decreases n,
{
    if n <= 0 || n > ch.len() {
        Ok(Seq::empty())
    } else {
        match all_descendants(ch, n - 1) {
            Err(c) => Err(c),
            Ok(d) => match dfs(ch, TypeId((n - 1) as usize), Seq::empty(), Seq::empty()) {
                Err(c) => Err(c),
                Ok(o) => Ok(d.push(o)),
            },
        }
    }
}

/// A depth first walk only appends to `out`, appends each type once, and lists the type it
/// starts from.
pub proof fn lemma_dfs_extends(ch: Seq<Seq<TypeId>>, id: TypeId, stack: Seq<TypeId>, out: Seq<TypeId>)
    requires
        out.no_duplicates(),
    ensures
        dfs(ch, id, stack, out) matches Ok(o) ==> o.len() >= out.len() && o.subrange(0, out.len() as int) == out
            && o.no_duplicates() && (stack.len() < ch.len() && id.0 < ch.len() ==> o.contains(id)),
    decreases ch.len() - stack.len(), 0int, 0int,
{
    if position_of(stack, id, 0) is None && id.0 < ch.len() && stack.len() < ch.len() {
        let out1 = if out.contains(id) {
            out
        } else {
            out.push(id)
        };
        assert(out1.no_duplicates()) by {
            if !out.contains(id) {
                assert forall|a: int, b: int| 0 <= a < out1.len() && 0 <= b < out1.len() && a != b implies out1[a] != out1[b] by {
                    if a < out.len() && b < out.len() {
                    } else if a == out.len() {
                        assert(out1[b] == out[b]);
                    } else {
                        assert(out1[a] == out[a]);
                    }
                }
            }
        }
        assert(out1.contains(id)) by {
            if !out.contains(id) {
                assert(out1[out.len() as int] == id);
            }
        }
        lemma_dfs_children_extends(ch, ch[id.0 as int], 0, stack.push(id), out1);
        if let Ok(o) = dfs(ch, id, stack, out) {
            assert(o.subrange(0, out.len() as int) =~= out) by {
                assert(o.subrange(0, out1.len() as int) == out1);
                assert forall|k: int| 0 <= k < out.len() implies o[k] == out[k] by {
                    assert(o.subrange(0, out1.len() as int)[k] == o[k]);
                }
            }
            assert(o.contains(id)) by {
                let k = choose|k: int| 0 <= k < out1.len() && out1[k] == id;
                assert(o.subrange(0, out1.len() as int)[k] == o[k]);
            }
        }
    }
}

/// Walking depth first from several types only appends to `out`, each type once.
pub proof fn lemma_dfs_children_extends(ch: Seq<Seq<TypeId>>, kids: Seq<TypeId>, i: int, stack: Seq<TypeId>, out: Seq<TypeId>)
    requires
        out.no_duplicates(),
    ensures
        dfs_children(ch, kids, i, stack, out) matches Ok(o) ==> o.len() >= out.len() && o.subrange(0, out.len() as int)
            == out && o.no_duplicates(),
    decreases ch.len() - stack.len(), 1int, kids.len() - i,
{
    if 0 <= i < kids.len() && stack.len() <= ch.len() {
        lemma_dfs_extends(ch, kids[i], stack, out);
        if let Ok(o1) = dfs(ch, kids[i], stack, out) {
            lemma_dfs_children_extends(ch, kids, i + 1, stack, o1);
            if let Ok(o) = dfs_children(ch, kids, i + 1, stack, o1) {
                assert(o.subrange(0, out.len() as int) =~= out) by {
                    assert forall|k: int| 0 <= k < out.len() implies o[k] == out[k] by {
                        assert(o.subrange(0, o1.len() as int)[k] == o[k]);
                        assert(o1.subrange(0, out.len() as int)[k] == o1[k]);
                    }
                }
            }
        }
    } else {
        assert(out.subrange(0, out.len() as int) =~= out);
    }
}

/// The descendants listed for each type are those that a depth first walk from it finds.
pub proof fn lemma_all_descendants_index(ch: Seq<Seq<TypeId>>, n: int, i: int)
    requires
        0 <= i < n <= ch.len(),
        all_descendants(ch, n) is Ok,
    ensures
        all_descendants(ch, n)->Ok_0.len() == n,
        dfs(ch, TypeId(i as usize), Seq::empty(), Seq::empty()) == Ok::<Seq<TypeId>, Seq<TypeId>>(
            all_descendants(ch, n)->Ok_0[i],
        ),
    decreases n,
{
    if i < n - 1 {
        lemma_all_descendants_index(ch, n - 1, i);
    } else {
        if n > 1 {
            lemma_all_descendants_index(ch, n - 1, 0);
        }
    }
}

/// The descendants of each type start with the type itself and list no type twice (so a type
/// with no child types is its own only descendant).
pub proof fn law_descendants_start_with_the_type(ch: Seq<Seq<TypeId>>, i: int)
    requires
        0 <= i < ch.len() <= usize::MAX,
        all_descendants(ch, ch.len() as int) is Ok,
    ensures
        ({
            let d = all_descendants(ch, ch.len() as int)->Ok_0;
            &&& d[i].len() >= 1
            &&& d[i][0] == TypeId(i as usize)
            &&& d[i].no_duplicates()
            &&& ch[i].len() == 0 ==> d[i] == seq![TypeId(i as usize)]
        }),
{
    let id = TypeId(i as usize);
    lemma_all_descendants_index(ch, ch.len() as int, i);
    lemma_dfs_extends(ch, id, Seq::empty(), Seq::empty());
    let o = dfs(ch, id, Seq::empty(), Seq::empty())->Ok_0;
    assert(position_of(Seq::<TypeId>::empty(), id, 0) is None);
    let out1 = Seq::<TypeId>::empty().push(id);
    assert(!Seq::<TypeId>::empty().contains(id));
    assert(dfs(ch, id, Seq::empty(), Seq::empty()) == dfs_children(ch, ch[i], 0, out1, out1));
    lemma_dfs_children_extends(ch, ch[i], 0, out1, out1);
    assert(o.subrange(0, 1)[0] == o[0]);
    if ch[i].len() == 0 {
        assert(dfs_children(ch, ch[i], 0, out1, out1) == Ok::<Seq<TypeId>, Seq<TypeId>>(out1));
    }
}

/// Every id of `ids` is below `n`.
pub open spec fn ids_below(ids: Seq<TypeId>, n: int) -> bool {
    forall|i: int| 0 <= i < ids.len() ==> (#[trigger] ids[i]).0 < n
}

/// A list of distinct ids below `n` has at most `n` of them.
pub proof fn lemma_distinct_ids_bounded(ids: Seq<TypeId>, n: int)
    requires
        ids.no_duplicates(),
        ids_below(ids, n),
        0 <= n,
    ensures
        ids.len() <= n,
{
    let nums = ids.map_values(|t: TypeId| t.0 as int);
    assert(nums.no_duplicates()) by {
        assert forall|i: int, j: int| 0 <= i < nums.len() && 0 <= j < nums.len() && i != j implies nums[i] != nums[j] by {
            assert(ids[i] != ids[j]);
        }
    }
    nums.unique_seq_to_set();
    vstd::set_lib::lemma_int_range(0, n);
    assert(nums.to_set().subset_of(vstd::set_lib::set_int_range(0, n))) by {
        assert forall|x: int| nums.to_set().contains(x) implies vstd::set_lib::set_int_range(0, n).contains(x) by {
            let i = choose|i: int| 0 <= i < nums.len() && nums[i] == x;
            assert(ids[i].0 < n);
        }
    }
    vstd::set_lib::lemma_len_subset(nums.to_set(), vstd::set_lib::set_int_range(0, n));
}

/// Whether `v` holds `id`.
fn holds_id(v: &Vec<TypeId>, id: TypeId) -> (b: bool)
    ensures
        b == v@.contains(id),
{
    let mut i: usize = 0;
    while i < v.len()
        invariant
            i <= v@.len(),
            forall|k: int| 0 <= k < i ==> v@[k] != id,
        decreases v@.len() - i,
    {
        if v[i].0 == id.0 {
            return true;
        }
        i = i + 1;
    }
    false
}

/// The names of the types of `ids`.
pub open spec fn names_of(ids: Seq<TypeId>, types: Seq<(String, super::Type)>) -> Seq<Seq<char>> {
    ids.map_values(|id: TypeId| types[id.0 as int].0@)
}

/// Enumerate the descendants of a type by recursively walking its child types, inserting the
/// results into `out` (see [`dfs`]).  This also detects cycles in this graph (i.e. a type
/// which is its own descendant), and creates the appropriate error messages.
fn enumerate_type_descendants(
    id: TypeId,
    types: &Vec<(String, super::Type)>,
    child_type_ids: &Vec<Vec<TypeId>>,
    type_stack: &mut Vec<TypeId>,
    out: &mut Vec<TypeId>,
) -> (r: Result<(), ConvertError>)
    requires
        child_type_ids@.len() == types@.len(),
        forall|i: int| 0 <= i < child_type_ids@.len() ==> ids_below(#[trigger] child_type_ids@[i]@, types@.len() as int),
        id.0 < types@.len(),
        old(type_stack)@.no_duplicates(),
        ids_below(old(type_stack)@, types@.len() as int),
    ensures
        match dfs(id_lists(child_type_ids@), id, old(type_stack)@, old(out)@) {
            Ok(o) => r is Ok && final(out)@ == o && final(type_stack)@ == old(type_stack)@,
            Err(c) => r matches Err(ConvertError::TypeCycle(names)) && string_views(names@) == names_of(c, types@),
        },
    decreases types@.len() - old(type_stack)@.len(),
{
    let ghost ch = id_lists(child_type_ids@);
    // Check for cycles
    let mut idx: usize = 0;
    while idx < type_stack.len()
        invariant
            idx <= type_stack@.len(),
            type_stack@ == old(type_stack)@,
            ids_below(type_stack@, types@.len() as int),
            id.0 < types@.len(),
            position_of(type_stack@, id, 0) == position_of(type_stack@, id, idx as int),
        decreases type_stack@.len() - idx,
    {
        if type_stack[idx].0 == id.0 {
            // `type_stack[idx..] + id` forms the cycle (i.e. a cycle which starts and ends
            // with `id`)
            let mut cycle: Vec<String> = Vec::new();
            let mut j: usize = idx;
            while j < type_stack.len()
                invariant
                    idx <= j <= type_stack@.len(),
                    ids_below(type_stack@, types@.len() as int),
                    string_views(cycle@) == names_of(type_stack@.subrange(idx as int, j as int), types@),
                decreases type_stack@.len() - j,
            {
                let ghost prev = cycle@;
                cycle.push(types[type_stack[j].0].0.clone());
                proof {
                    assert(type_stack@.subrange(idx as int, j + 1) =~= type_stack@.subrange(idx as int, j as int).push(type_stack@[j as int]));
                    assert(string_views(cycle@) =~= string_views(prev).push(types@[type_stack@[j as int].0 as int].0@));
                    assert(names_of(type_stack@.subrange(idx as int, j + 1), types@) =~= names_of(type_stack@.subrange(idx as int, j as int), types@).push(types@[type_stack@[j as int].0 as int].0@));
                }
                j = j + 1;
            }
            let ghost prev = cycle@;
            cycle.push(types[id.0].0.clone());
            proof {
                assert(position_of(type_stack@, id, idx as int) == Some(idx as nat));
                assert(type_stack@.subrange(idx as int, type_stack@.len() as int) =~= type_stack@.skip(idx as int));
                assert(string_views(cycle@) =~= string_views(prev).push(types@[id.0 as int].0@));
                assert(names_of(type_stack@.skip(idx as int).push(id), types@) =~= names_of(type_stack@.skip(idx as int), types@).push(types@[id.0 as int].0@));
            }
            return Err(ConvertError::TypeCycle(cycle));
        }
        idx = idx + 1;
    }
    proof {
        lemma_position_of(old(type_stack)@, id, 0);
        lemma_distinct_ids_bounded(old(type_stack)@.push(id), types@.len() as int);
    }
    // Mark this type as a descendant (if it hasn't been listed already)
    if !holds_id(out, id) {
        out.push(id);
    }
    // Recurse over this type's children
    type_stack.push(id);
    let ghost stack = type_stack@;
    let ghost kids = ch[id.0 as int];
    let children = &child_type_ids[id.0];
    proof {
        assert(children@ == kids);
    }
    let mut k: usize = 0;
    while k < children.len()
        invariant
            k <= kids.len(),
            id.0 < types@.len(),
            children@ == kids,
            kids == child_type_ids@[id.0 as int]@,
            type_stack@ == stack,
            stack == old(type_stack)@.push(id),
            stack.no_duplicates(),
            stack.len() <= types@.len(),
            ch.len() == types@.len(),
            ids_below(stack, types@.len() as int),
            child_type_ids@.len() == types@.len(),
            forall|i: int| 0 <= i < child_type_ids@.len() ==> ids_below(#[trigger] child_type_ids@[i]@, types@.len() as int),
            ch == id_lists(child_type_ids@),
            dfs(ch, id, old(type_stack)@, old(out)@) == dfs_children(ch, kids, k as int, stack, out@),
        decreases kids.len() - k,
    {
        let child_id = children[k];
        proof {
            assert(ids_below(child_type_ids@[id.0 as int]@, types@.len() as int));
            assert(child_id.0 < types@.len());
        }
        match enumerate_type_descendants(child_id, types, child_type_ids, type_stack, out) {
            Ok(()) => {},
            Err(e) => {
                return Err(e);
            },
        }
        k = k + 1;
    }
    type_stack.pop();
    proof {
        assert(type_stack@ =~= old(type_stack)@);
    }
    Ok(())
}

/// The views of a list of id lists.
pub open spec fn id_lists(v: Seq<Vec<TypeId>>) -> Seq<Seq<TypeId>> {
    v.map_values(|x: Vec<TypeId>| x@)
}

/// The names of a list of named types.
pub open spec fn type_names(types: Seq<(String, super::Type)>) -> Seq<Seq<char>> {
    types.map_values(|t: (String, super::Type)| t.0@)
}

/// The ids of the child types of one type, or the first of them which is not a type.
fn resolve_type_children(ty: &super::Type, parent_name: &String, type_map: &TypeMap) -> (r: Result<Vec<TypeId>, ConvertError>)
    ensures
        match resolve_names(type_children(*ty), type_map.names(), type_children(*ty).len() as int) {
            Ok(ids) => r matches Ok(v) && v@ == ids,
            Err(child) => r matches Err(ConvertError::UnknownChildType { name, parent_name: p }) && name@ == child
                && p@ == parent_name@,
        },
{
    let mut ids: Vec<TypeId> = Vec::new();
    match ty {
        super::Type::Pattern { children, .. } => {
            let ghost kids = type_children(*ty);
            let mut j: usize = 0;
            while j < children.len()
                invariant
                    j <= children@.len(),
                    kids == string_views(children@),
                    kids == type_children(*ty),
                    resolve_names(kids, type_map.names(), j as int) == Ok::<Seq<TypeId>, Seq<char>>(ids@),
                decreases children@.len() - j,
            {
                match type_map.get(&children[j], parent_name) {
                    Ok(id) => {
                        ids.push(id);
                    },
                    Err(e) => {
                        proof {
                            assert(kids[j as int] == children@[j as int]@);
                            assert(resolve_names(kids, type_map.names(), j + 1) == Err::<Seq<TypeId>, Seq<char>>(kids[j as int]));
                            lemma_resolve_names_stable(kids, type_map.names(), j + 1, kids.len() as int);
                        }
                        return Err(e);
                    },
                }
                j = j + 1;
            }
        },
        super::Type::Stringy { .. } => {},
    }
    Ok(ids)
}

/// For every type, compute the list of its descendants (i.e. types into which it can be
/// converted), walked depth first from itself (see [`dfs`]).  This also checks for cycles.
fn compute_type_descendants(types: &Vec<(String, super::Type)>, type_map: &TypeMap) -> (r: Result<Vec<Vec<TypeId>>, ConvertError>)
    requires
        type_map.names() == type_names(types@),
    ensures
        match resolve_children(types@, type_map.names(), types@.len() as int) {
            Err((child, parent)) => r matches Err(ConvertError::UnknownChildType { name, parent_name }) && name@
                == child && parent_name@ == parent,
            Ok(ch) => match all_descendants(ch, ch.len() as int) {
                Err(c) => r matches Err(ConvertError::TypeCycle(names)) && string_views(names@) == names_of(c, types@),
                Ok(d) => r matches Ok(v) && id_lists(v@) == d,
            },
        },
{
    let ghost names = type_map.names();
    // For each type, determine the ids of its children
    let mut child_type_ids: Vec<Vec<TypeId>> = Vec::new();
    proof {
        assert(id_lists(child_type_ids@) =~= Seq::<Seq<TypeId>>::empty());
    }
    let mut i: usize = 0;
    while i < types.len()
        invariant
            i <= types@.len(),
            names == type_map.names(),
            names == type_names(types@),
            resolve_children(types@, names, i as int) == Ok::<Seq<Seq<TypeId>>, (Seq<char>, Seq<char>)>(
                id_lists(child_type_ids@),
            ),
            child_type_ids@.len() == i,
            forall|k: int| 0 <= k < i ==> ids_below(#[trigger] child_type_ids@[k]@, types@.len() as int),
        decreases types@.len() - i,
    {
        let ids = match resolve_type_children(&types[i].1, &types[i].0, type_map) {
            Ok(ids) => ids,
            Err(e) => {
                proof {
                    lemma_resolve_children_stable(types@, names, i + 1, types@.len() as int);
                }
                return Err(e);
            },
        };
        proof {
            let kids = type_children(types@[i as int].1);
            lemma_resolved_ids_below(kids, names, kids.len() as int);
            assert(names.len() == types@.len());
        }
        let ghost prev = child_type_ids@;
        child_type_ids.push(ids);
        proof {
            assert(id_lists(child_type_ids@) =~= id_lists(prev).push(child_type_ids@[i as int]@));
        }
        i = i + 1;
    }
    let ghost ch = id_lists(child_type_ids@);
    // For each type, flatten its descendant tree, stopping if any cycles are found
    let mut descendants: Vec<Vec<TypeId>> = Vec::new();
    proof {
        assert(id_lists(descendants@) =~= Seq::<Seq<TypeId>>::empty());
    }
    let mut i: usize = 0;
    while i < types.len()
        invariant
            i <= types@.len(),
            ch == id_lists(child_type_ids@),
            ch.len() == types@.len(),
            names == type_map.names(),
            resolve_children(types@, names, types@.len() as int) == Ok::<Seq<Seq<TypeId>>, (Seq<char>, Seq<char>)>(ch),
            forall|k: int| 0 <= k < child_type_ids@.len() ==> ids_below(#[trigger] child_type_ids@[k]@, types@.len() as int),
            all_descendants(ch, i as int) == Ok::<Seq<Seq<TypeId>>, Seq<TypeId>>(id_lists(descendants@)),
            descendants@.len() == i,
        decreases types@.len() - i,
    {
        let mut type_stack: Vec<TypeId> = Vec::new();
        let mut out: Vec<TypeId> = Vec::new();
        proof {
            assert(type_stack@.no_duplicates());
        }
        match enumerate_type_descendants(TypeId(i), types, &child_type_ids, &mut type_stack, &mut out) {
            Ok(()) => {},
            Err(e) => {
                proof {
                    lemma_all_descendants_stable(ch, i + 1, types@.len() as int);
                }
                return Err(e);
            },
        }
        let ghost prev = descendants@;
        descendants.push(out);
        proof {
            assert(id_lists(descendants@) =~= id_lists(prev).push(descendants@[i as int]@));
        }
        i = i + 1;
    }
    Ok(descendants)
}

/// Once a name is not found, resolving more names fails on it.
pub proof fn lemma_resolve_names_stable(kids: Seq<Seq<char>>, names: Seq<Seq<char>>, m: int, n: int)
    requires
        0 < m <= n <= kids.len(),
        resolve_names(kids, names, m) is Err,
    ensures
        resolve_names(kids, names, n) == resolve_names(kids, names, m),
    decreases n - m,
{
    if m < n {
        lemma_resolve_names_stable(kids, names, m, n - 1);
    }
}

/// Once a child name is not found, resolving more types fails on it.
pub proof fn lemma_resolve_children_stable(types: Seq<(String, super::Type)>, names: Seq<Seq<char>>, m: int, n: int)
    requires
        0 < m <= n <= types.len(),
        resolve_children(types, names, m) is Err,
    ensures
        resolve_children(types, names, n) == resolve_children(types, names, m),
    decreases n - m,
{
    if m < n {
        lemma_resolve_children_stable(types, names, m, n - 1);
    }
}

/// Once a cycle is found, walking more types fails on it.
pub proof fn lemma_all_descendants_stable(ch: Seq<Seq<TypeId>>, m: int, n: int)
    requires
        0 < m <= n <= ch.len(),
        all_descendants(ch, m) is Err,
    ensures
        all_descendants(ch, n) == all_descendants(ch, m),
    decreases n - m,
{
    if m < n {
        lemma_all_descendants_stable(ch, m, n - 1);
    }
}

/// The ids resolved from names lie below the number of names.
pub proof fn lemma_resolved_ids_below(kids: Seq<Seq<char>>, names: Seq<Seq<char>>, n: int)
    ensures
        resolve_names(kids, names, n) matches Ok(ids) ==> ids_below(ids, names.len() as int),
    decreases n,
{
    if 0 < n <= kids.len() {
        lemma_resolved_ids_below(kids, names, n - 1);
        lemma_first_index(names, kids[n - 1], 0);
    }
}

//////////////
// PATTERNS //
//////////////

/// The name of the first type, walking the pattern `src` from `i` on (into nested sequences
/// too), which is not among `names`.
pub open spec fn first_unknown(src: Seq<super::PatternElement>, i: int, names: Seq<Seq<char>>) -> Option<Seq<char>>
    decreases src, src.len() - i,
{
    if i < 0 || i >= src.len() {
        None
    } else {
        match src[i] {
            super::PatternElement::Token(_) => first_unknown(src, i + 1, names),
            super::PatternElement::Type { name } => if first_index(names, name@, 0) is None {
                Some(name@)
            } else {
                first_unknown(src, i + 1, names)
            },
            super::PatternElement::Sequence { pattern, delimiter } => {
                proof {
                    assert(decreases_to!(src => src[i]));
                }
                match first_unknown(pattern@, 0, names) {
                    Some(n) => Some(n),
                    None => first_unknown(src, i + 1, names),
                }
            },
        }
    }
}

/// The token texts after compiling the element `s` from the texts `texts`, if `o` is what it
/// compiles to: a token gets the id of its text (added to the texts if it is new), a type
/// gets the id of its name, and a sequence compiles its pattern, then its delimiter.
pub open spec fn elem_step(s: super::PatternElement, o: PatternElement, texts: Seq<Seq<char>>, names: Seq<Seq<char>>) -> Option<Seq<Seq<char>>>
    decreases s, 0int,
{
    match s {
        super::PatternElement::Token(text) => match o {
            PatternElement::Token(id) => {
                let (t2, k) = with_token(texts, text@);
                if k == id.0 {
                    Some(t2)
                } else {
                    None
                }
            },
            _ => None,
        },
        super::PatternElement::Type { name } => match o {
            PatternElement::Type(id) => if first_index(names, name@, 0) == Some(id.0 as nat) {
                Some(texts)
            } else {
                None
            },
            _ => None,
        },
        super::PatternElement::Sequence { pattern, delimiter } => match o {
            PatternElement::Sequence { pattern: p2, delimiter: d } => if p2@.len() == pattern@.len() {
                match compiled_upto(pattern@, p2@, pattern@.len() as int, texts, names) {
                    Some(t2) => {
                        let (t3, k) = with_token(t2, delimiter@);
                        if k == d.0 {
                            Some(t3)
                        } else {
                            None
                        }
                    },
                    None => None,
                }
            } else {
                None
            },
            _ => None,
        },
    }
}

/// The token texts after compiling the first `n` elements of `src` in turn from `texts`, if
/// the first `n` elements of `out` are what they compile to (see [`elem_step`]).
pub open spec fn compiled_upto(src: Seq<super::PatternElement>, out: Seq<PatternElement>, n: int, texts: Seq<Seq<char>>, names: Seq<Seq<char>>) -> Option<Seq<Seq<char>>>
    decreases src, n,
{
    if n <= 0 || n > src.len() || n > out.len() {
        Some(texts)
    } else {
        match compiled_upto(src, out, n - 1, texts, names) {
            Some(t) => {
                proof {
                    assert(decreases_to!(src => src[n - 1]));
                }
                elem_step(src[n - 1], out[n - 1], t, names)
            },
            None => None,
        }
    }
}

/// Compiling a prefix only reads that prefix of the output.
pub proof fn lemma_compiled_upto_frame(src: Seq<super::PatternElement>, out: Seq<PatternElement>, out2: Seq<PatternElement>, n: int, texts: Seq<Seq<char>>, names: Seq<Seq<char>>)
    requires
        0 <= n <= out.len(),
        n <= out2.len(),
        forall|k: int| 0 <= k < n ==> out[k] == out2[k],
    ensures
        compiled_upto(src, out, n, texts, names) == compiled_upto(src, out2, n, texts, names),
    decreases n,
{
    if n > 0 {
        lemma_compiled_upto_frame(src, out, out2, n - 1, texts, names);
    }
}

/// Compiles a pattern read from a grammar file: the token texts get ids from `token_map`, and
/// the type names from `type_map`.
fn compile_pattern(
    elems: &Vec<super::PatternElement>,
    parent_type_name: &String,
    token_map: &mut TokenMap,
    type_map: &TypeMap,
) -> (r: Result<Vec<PatternElement>, ConvertError>)
    ensures
        match first_unknown(elems@, 0, type_map.names()) {
            Some(n) => r matches Err(ConvertError::UnknownChildType { name, parent_name }) && name@ == n
                && parent_name@ == parent_type_name@,
            None => r matches Ok(out) && out@.len() == elems@.len() && compiled_upto(
                elems@,
                out@,
                elems@.len() as int,
                old(token_map).texts(),
                type_map.names(),
            ) == Some(final(token_map).texts()),
        },
    decreases elems@,
{
    let ghost names = type_map.names();
    let ghost texts0 = token_map.texts();
    let mut out: Vec<PatternElement> = Vec::new();
    let mut i: usize = 0;
    while i < elems.len()
        invariant
            i <= elems@.len(),
            out@.len() == i,
            names == type_map.names(),
            texts0 == old(token_map).texts(),
            first_unknown(elems@, 0, names) == first_unknown(elems@, i as int, names),
            compiled_upto(elems@, out@, i as int, texts0, names) == Some(token_map.texts()),
        decreases elems@.len() - i,
    {
        let ghost before = out@;
        let ghost t = token_map.texts();
        let elem = match &elems[i] {
            super::PatternElement::Token(text) => {
                let id = token_map.get_id(text.clone());
                proof {
                    assert(elem_step(elems@[i as int], PatternElement::Token(id), t, names) == Some(token_map.texts()));
                }
                PatternElement::Token(id)
            },
            super::PatternElement::Type { name } => match type_map.get(name, parent_type_name) {
                Ok(id) => {
                    proof {
                        assert(elem_step(elems@[i as int], PatternElement::Type(id), t, names) == Some(token_map.texts()));
                    }
                    PatternElement::Type(id)
                },
                Err(e) => {
                    return Err(e);
                },
            },
            super::PatternElement::Sequence { pattern, delimiter } => {
                proof {
                    assert(decreases_to!(elems@ => elems@[i as int]));
                }
                let compiled = match compile_pattern(pattern, parent_type_name, token_map, type_map) {
                    Ok(p) => p,
                    Err(e) => {
                        return Err(e);
                    },
                };
                let ghost t_mid = token_map.texts();
                let delimiter_id = token_map.get_id(delimiter.clone());
                proof {
                    assert(compiled_upto(pattern@, compiled@, pattern@.len() as int, t, names) == Some(t_mid));
                    assert(with_token(t_mid, delimiter@) == (token_map.texts(), delimiter_id.0 as nat));
                }
                PatternElement::Sequence { pattern: compiled, delimiter: delimiter_id }
            },
        };
        proof {
            assert(elem_step(elems@[i as int], elem, t, names) == Some(token_map.texts()));
        }
        out.push(elem);
        proof {
            lemma_compiled_upto_frame(elems@, before, out@, i as int, texts0, names);
            assert(first_unknown(elems@, i as int, names) == first_unknown(elems@, i + 1, names));
        }
        i = i + 1;
    }
    Ok(out)
}

///////////////////////////////
// REGEX/WHITESPACE/CHAR SET //
///////////////////////////////

/// The regex that matches validity regex `r` anywhere (in extended syntax).
pub open spec fn unanchored_pattern(r: Seq<char>) -> Seq<char> {
    "(?x: "@ + r + " )"@
}

/// The regex that matches validity regex `r` from the start of a string.
pub open spec fn start_anchored_pattern(r: Seq<char>) -> Seq<char> {
    "^"@ + unanchored_pattern(r)
}

/// The regex that matches validity regex `r` against a whole string.
pub open spec fn both_anchored_pattern(r: Seq<char>) -> Seq<char> {
    start_anchored_pattern(r) + "$"@
}

/// The regexes `rs` are those compiled from validity regex `r`: matching it anywhere, from the
/// start of a string, and against a whole string.
pub open spec fn compiled_from(rs: Regexes, r: Seq<char>) -> bool {
    &&& rs.unanchored@ == unanchored_pattern(r)
    &&& rs.anchored_start@ == start_anchored_pattern(r)
    &&& rs.anchored_both@ == both_anchored_pattern(r)
}

/// The first of the regexes compiled from validity regex `r` which fails to compile.
pub open spec fn failing_validity_regex(r: Seq<char>) -> Option<Seq<char>> {
    if !regex_compiles(unanchored_pattern(r)) {
        Some(unanchored_pattern(r))
    } else if !regex_compiles(start_anchored_pattern(r)) {
        Some(start_anchored_pattern(r))
    } else if !regex_compiles(both_anchored_pattern(r)) {
        Some(both_anchored_pattern(r))
    } else {
        None
    }
}

/// Compiles `pattern`, failing with an error that names the type and the regex.
fn compile_regex(pattern: String, ty_name: &String) -> (r: Result<CompiledRegex, ConvertError>)
    ensures
        r is Ok <==> regex_compiles(pattern@),
        r matches Ok(re) ==> re@ == pattern@,
        r matches Err(e) ==> (e matches ConvertError::Regex { name_of_type, regex, .. } && name_of_type@
            == ty_name@ && regex@ == pattern@),
{
    match CompiledRegex::new(pattern.as_str()) {
        Ok(regex) => Ok(regex),
        Err(inner) => Err(ConvertError::Regex { name_of_type: ty_name.clone(), regex: pattern, inner }),
    }
}

/// Compiles the validity regex `regex_str` of the type `ty_name` into the regexes which
/// match it anywhere, from the start, and against a whole string.
fn convert_validity_regex(regex_str: &String, ty_name: &String) -> (r: Result<Regexes, ConvertError>)
    ensures
        match failing_validity_regex(regex_str@) {
            None => r is Ok,
            Some(p) => r matches Err(ConvertError::Regex { name_of_type, regex, .. }) && name_of_type@ == ty_name@
                && regex@ == p,
        },
        r matches Ok(rs) ==> compiled_from(rs, regex_str@),
{
    let mut str_unanchored = String::new();
    str_unanchored.append("(?x: ");
    str_unanchored.append(regex_str.as_str());
    str_unanchored.append(" )");
    let mut str_anchor_start = String::new();
    str_anchor_start.append("^");
    str_anchor_start.append(str_unanchored.as_str());
    let mut str_anchor_both = String::new();
    str_anchor_both.append(str_anchor_start.as_str());
    str_anchor_both.append("$");
    proof {
        assert(str_unanchored@ =~= unanchored_pattern(regex_str@));
        assert(str_anchor_start@ =~= start_anchored_pattern(regex_str@));
        assert(str_anchor_both@ =~= both_anchored_pattern(regex_str@));
    }
    let unanchored = compile_regex(str_unanchored, ty_name)?;
    let anchored_start = compile_regex(str_anchor_start, ty_name)?;
    let anchored_both = compile_regex(str_anchor_both, ty_name)?;
    Ok(Regexes { unanchored, anchored_start, anchored_both })
}

/// What `regex_syntax` parses `pattern` into: `None` when it fails to parse; else
/// `Ok(ranges)` with the ranges of the class of chars it parses into, `Err(Some(bytes))` with
/// the bytes of the literal it parses into, or `Err(None)` when it parses into anything else.
pub uninterp spec fn parsed_char_class(pattern: Seq<char>) -> Option<Result<Seq<(char, char)>, Option<Seq<u8>>>>;

/// The views of a list of char ranges.
pub open spec fn range_views(v: Seq<RangeInclusive<char>>) -> Seq<(char, char)> {
    v.map_values(|r: RangeInclusive<char>| (r@.start, r@.end))
}

/// `regex_syntax::Parser::parse` followed by reading the ranges of the class of chars, or the
/// bytes of the literal, that the pattern parses into.  The result depends on the pattern
/// alone, and is named [`parsed_char_class`]; how `regex_syntax` parses is left to it.
#[verifier::external_body]
fn parse_char_class(pattern: &str) -> (r: Result<Result<Vec<RangeInclusive<char>>, Option<Vec<u8>>>, regex_syntax::Error>)
    ensures
        match r {
            Err(_) => parsed_char_class(pattern@) is None,
            Ok(Ok(v)) => parsed_char_class(pattern@) == Some(Ok::<Seq<(char, char)>, Option<Seq<u8>>>(range_views(v@))),
            Ok(Err(Some(b))) => parsed_char_class(pattern@) == Some(Err::<Seq<(char, char)>, Option<Seq<u8>>>(Some(b@))),
            Ok(Err(None)) => parsed_char_class(pattern@) == Some(Err::<Seq<(char, char)>, Option<Seq<u8>>>(None)),
        },
{
    match regex_syntax::Parser::new().parse(pattern) {
        Ok(hir) => Ok(match hir.kind() {
            HirKind::Class(Class::Unicode(class)) => Ok(class.ranges().iter().map(|r| r.start()..=r.end()).collect()),
            HirKind::Literal(lit) => Err(Some(lit.0.to_vec())),
            HirKind::Class(Class::Bytes(_)) => Err(None),
            HirKind::Empty => Err(None),
            HirKind::Look(_) => Err(None),
            HirKind::Repetition(_) => Err(None),
            HirKind::Capture(_) => Err(None),
            HirKind::Concat(_) => Err(None),
            HirKind::Alternation(_) => Err(None),
        }),
        Err(e) => Err(e),
    }
}

/// `std::str::from_utf8`: the string whose UTF-8 encoding is `bytes`, where they are valid
/// UTF-8.
#[verifier::external_body]
fn utf8_str(bytes: &[u8]) -> (r: Option<&str>)
    ensures
        r is Some <==> valid_utf8(bytes@),
        r matches Some(s) ==> encode_utf8(s@) == bytes@,
{
    std::str::from_utf8(bytes).ok()
}

/// The char whose UTF-8 encoding is `bytes`, if there is one.
pub open spec fn single_char(bytes: Seq<u8>) -> Option<char> {
    if exists|c: char| #[trigger] encode_utf8(seq![c]) == bytes {
        Some(choose|c: char| #[trigger] encode_utf8(seq![c]) == bytes)
    } else {
        None
    }
}

/// The regex of the class of the chars written `source` (as between `[` and `]`).
pub open spec fn class_pattern(source: Seq<char>) -> Seq<char> {
    "["@ + source + "]"@
}

/// The chars that the ranges `ranges` hold.
pub open spec fn in_ranges(ranges: Seq<(char, char)>, c: char) -> bool {
    exists|j: int| 0 <= j < ranges.len() && (#[trigger] ranges[j].0 as int) <= (c as int) <= (ranges[j].1 as int)
}

/// The chars of a class that parses into `parsed` (see [`parsed_char_class`]), as a test of
/// membership: those of its ranges, or the one char of a literal; `None` where it parses into
/// something else.
pub open spec fn class_set(parsed: Result<Seq<(char, char)>, Option<Seq<u8>>>) -> Option<spec_fn(char) -> bool> {
    match parsed {
        Ok(ranges) => Some(|c: char| in_ranges(ranges, c)),
        Err(Some(b)) => match single_char(b) {
            Some(d) => Some(|c: char| c == d),
            None => None,
        },
        Err(None) => None,
    }
}

/// Compiles a set of chars written as the inside of a regex char class into a [`CharSet`].  A
/// class of one char parses as a literal of that char, which gives the set of that char.
fn convert_char_set(source_str: String) -> (r: Result<CharSet, ConvertError>)
    ensures
        match parsed_char_class(class_pattern(source_str@)) {
            None => r matches Err(ConvertError::CharSet { source_str: s, regex_str, .. }) && s@ == source_str@
                && regex_str@ == class_pattern(source_str@),
            Some(parsed) => match class_set(parsed) {
                None => r matches Err(ConvertError::NotACharClass { source_str: s, regex_str }) && s@
                    == source_str@ && regex_str@ == class_pattern(source_str@),
                Some(holds) => r matches Ok(set) && set.wf() && forall|c: char|
                    set.chars().contains(c) <==> holds(c),
            },
        },
{
    // Convert the source into the string for a regex which matches single chars from the
    // same set.
    let mut regex_str = String::new();
    regex_str.append("[");
    regex_str.append(source_str.as_str());
    regex_str.append("]");
    proof {
        assert(regex_str@ =~= class_pattern(source_str@));
    }
    match parse_char_class(regex_str.as_str()) {
        Ok(Ok(ranges)) => {
            let ghost rs = ranges@;
            let ghost rv = range_views(rs);
            let set = CharSet::from_ranges(ranges);
            proof {
                assert forall|c: char| set.chars().contains(c) <==> in_ranges(rv, c) by {
                    if set.chars().contains(c) {
                        let j = choose|j: int|
                            0 <= j < rs.len() && crate::char_set::code(#[trigger] rs[j]@.start) <= crate::char_set::code(c)
                                <= crate::char_set::code(rs[j]@.end);
                        assert(rv[j] == (rs[j]@.start, rs[j]@.end));
                        assert((rv[j].0 as int) <= (c as int) <= (rv[j].1 as int));
                        assert(in_ranges(rv, c));
                    }
                    if in_ranges(rv, c) {
                        let j = choose|j: int| 0 <= j < rv.len() && (#[trigger] rv[j].0 as int) <= (c as int) <= (rv[j].1 as int);
                        assert(rv[j] == (rs[j]@.start, rs[j]@.end));
                        assert(crate::char_set::code(rs[j]@.start) <= crate::char_set::code(c) <= crate::char_set::code(rs[j]@.end));
                    }
                }
            }
            Ok(set)
        },
        Ok(Err(Some(bytes))) => {
            let ghost b = bytes@;
            let decoded = utf8_str(bytes.as_slice());
            proof {
                if single_char(b) is Some {
                    let c = choose|c: char| #[trigger] encode_utf8(seq![c]) == b;
                    encode_utf8_valid_utf8(seq![c]);
                }
            }
            match decoded {
                Some(s) => {
                    if s.unicode_len() == 1 {
                        let c = s.get_char(0);
                        let mut set = CharSet::empty();
                        set.insert(c);
                        proof {
                            assert(s@ =~= seq![c]);
                            let d = choose|d: char| #[trigger] encode_utf8(seq![d]) == b;
                            lemma_encode_injective(seq![d], seq![c]);
                            assert(seq![d][0] == d);
                        }
                        return Ok(set);
                    }
                    proof {
                        if single_char(b) is Some {
                            let d = choose|d: char| #[trigger] encode_utf8(seq![d]) == b;
                            lemma_encode_injective(seq![d], s@);
                        }
                    }
                    Err(ConvertError::NotACharClass { source_str, regex_str })
                },
                None => Err(ConvertError::NotACharClass { source_str, regex_str }),
            }
        },
        Ok(Err(None)) => Err(ConvertError::NotACharClass { source_str, regex_str }),
        Err(inner) => Err(ConvertError::CharSet { source_str, regex_str, inner }),
    }
}

/// Compiles the whitespace of a grammar file.
fn convert_whitespace(ws_chars: super::Whitespace) -> (r: Result<Whitespace, ConvertError>)
    ensures
        match ws_chars {
            super::Whitespace::Chars(source) => match parsed_char_class(class_pattern(source@)) {
                None => r matches Err(ConvertError::CharSet { source_str, regex_str, .. }) && source_str@
                    == source@ && regex_str@ == class_pattern(source@),
                Some(parsed) => match class_set(parsed) {
                    None => r matches Err(ConvertError::NotACharClass { source_str, regex_str })
                        && source_str@ == source@ && regex_str@ == class_pattern(source@),
                    Some(holds) => r matches Ok(w) && w.charset().wf() && forall|c: char|
                        w.charset().chars().contains(c) <==> holds(c),
                },
            },
        },
{
    match ws_chars {
        super::Whitespace::Chars(source) => match convert_char_set(source) {
            Ok(set) => Ok(Whitespace::from(set)),
            Err(e) => Err(e),
        },
    }
}

////////////////
// NODE TYPES //
////////////////

/// `t` is a stringy type whose `stringy` flag is unset.
pub open spec fn stringy_flag_unset(t: super::Type) -> bool {
    t matches super::Type::Stringy { stringy, .. } && !stringy
}

/// Every stringy type of `types` has its `stringy` flag set.
pub open spec fn stringy_flags_set(types: Seq<(String, super::Type)>) -> bool {
    forall|i: int| 0 <= i < types.len() ==> !stringy_flag_unset(#[trigger] types[i].1)
}

/// Whether each type can be parsed: a pattern type with a pattern, or a stringy type.
pub open spec fn parseable_flags(types: Seq<(String, super::Type)>) -> Seq<bool> {
    types.map_values(
        |t: (String, super::Type)|
            match t.1 {
                super::Type::Pattern { pattern, .. } => pattern is Some,
                super::Type::Stringy { .. } => true,
            },
    )
}

/// Why compiling a type fails.
pub enum TypeFault {
    /// Its pattern names a type which doesn't exist
    UnknownChild(Seq<char>),
    /// This regex, compiled from its validity regex, does not compile
    BadRegex(Seq<char>),
}

/// Why compiling the type `t` fails, if it does.
pub open spec fn type_fault(t: super::Type, names: Seq<Seq<char>>) -> Option<TypeFault> {
    match t {
        super::Type::Pattern { pattern, .. } => match pattern {
            Some(p) => match first_unknown(p@, 0, names) {
                Some(n) => Some(TypeFault::UnknownChild(n)),
                None => None,
            },
            None => None,
        },
        super::Type::Stringy { validity_regex, .. } => match validity_regex {
            Some(r) => match failing_validity_regex(r@) {
                Some(p) => Some(TypeFault::BadRegex(p)),
                None => None,
            },
            None => None,
        },
    }
}

/// `e` is the error for the fault `f` of the type named `name`.
pub open spec fn fault_is(e: ConvertError, f: TypeFault, name: Seq<char>) -> bool {
    match f {
        TypeFault::UnknownChild(n) => e matches ConvertError::UnknownChildType { name: c, parent_name: p } && c@ == n
            && p@ == name,
        TypeFault::BadRegex(p) => e matches ConvertError::Regex { name_of_type, regex, .. } && name_of_type@ == name
            && regex@ == p,
    }
}

/// The keys of a type: its `keys`, then its `key`.
pub open spec fn all_keys(keys: Seq<String>, key: Option<String>) -> Seq<Seq<char>> {
    string_views(keys) + match key {
        Some(k) => seq![k@],
        None => Seq::empty(),
    }
}

/// The ids of `ids` whose types can be parsed, in order.
pub open spec fn parseable_of(ids: Seq<TypeId>, parseable: Seq<bool>) -> Seq<TypeId> {
    ids.filter(|id: TypeId| parseable[id.0 as int])
}

/// `ty` has the shape of the type compiled from `t`, named `name`, with the descendants `desc`:
/// its name, keys, descendants, parseable descendants, and what it is.
pub open spec fn converted_shape(t: super::Type, name: Seq<char>, desc: Seq<TypeId>, parseable: Seq<bool>, ty: Type) -> bool {
    &&& ty.name@ == name
    &&& ty.all_descendants@ == desc
    &&& ty.parseable_descendants@ == parseable_of(desc, parseable)
    &&& match t {
        super::Type::Pattern { key, keys, pattern, .. } => string_views(ty.keys@) == all_keys(keys@, key) && match pattern {
            Some(p) => ty.inner matches TypeInner::Pattern(q) && q@.len() == p@.len(),
            None => ty.inner is Container,
        },
        super::Type::Stringy { key, keys, delim_start, delim_end, default_content, validity_regex, escape_rules, .. } => {
            &&& string_views(ty.keys@) == all_keys(keys@, key)
            &&& ty.inner matches TypeInner::Stringy(s) && s.delim_start@ == delim_start@ && s.delim_end@ == delim_end@
                && s.default_content@ == default_content@ && match validity_regex {
                Some(v) => s.regexes matches Some(rs) && compiled_from(rs, v@),
                None => s.regexes is None,
            }
                && s.escape_rules == escape_rules
        },
    }
}

/// The token texts after compiling `t` into `ty` from the texts `texts`, if its pattern
/// compiles into that of `ty` (see [`compiled_upto`]).
pub open spec fn type_texts(t: super::Type, ty: Type, texts: Seq<Seq<char>>, names: Seq<Seq<char>>) -> Option<Seq<Seq<char>>> {
    match t {
        super::Type::Pattern { pattern: Some(p), .. } => match ty.inner {
            TypeInner::Pattern(q) => compiled_upto(p@, q@, p@.len() as int, texts, names),
            _ => None,
        },
        _ => Some(texts),
    }
}

/// Compiles one type read from a grammar file, named `name`, with the descendants
/// `all_descendants`.
fn convert_type(
    t: super::Type,
    name: String,
    all_descendants: Vec<TypeId>,
    parseable_type_ids: &Vec<bool>,
    token_map: &mut TokenMap,
    type_map: &TypeMap,
) -> (r: Result<Type, ConvertError>)
    requires
        !stringy_flag_unset(t),
        ids_below(all_descendants@, parseable_type_ids@.len() as int),
    ensures
        match type_fault(t, type_map.names()) {
            Some(f) => r matches Err(e) && fault_is(e, f, name@),
            None => r matches Ok(ty) && converted_shape(t, name@, all_descendants@, parseable_type_ids@, ty)
                && type_texts(t, ty, old(token_map).texts(), type_map.names()) == Some(final(token_map).texts()),
        },
{
    let ghost t0 = t;
    let (key, mut keys, inner) = match t {
        super::Type::Pattern { key, keys, children: _, pattern } => {
            let inner = match pattern {
                Some(p) => match compile_pattern(&p, &name, token_map, type_map) {
                    Ok(q) => TypeInner::Pattern(q),
                    Err(e) => {
                        return Err(e);
                    },
                },
                None => TypeInner::Container,
            };
            (key, keys, inner)
        },
        super::Type::Stringy {
            key,
            keys,
            stringy: _,
            delim_start,
            delim_end,
            default_content,
            validity_regex,
            escape_rules,
        } => {
            let regexes = match validity_regex {
                Some(regex_str) => match convert_validity_regex(&regex_str, &name) {
                    Ok(regexes) => Some(regexes),
                    Err(e) => {
                        return Err(e);
                    },
                },
                None => None,
            };
            let inner = Stringy { delim_start, delim_end, regexes, default_content, escape_rules };
            (key, keys, TypeInner::Stringy(inner))
        },
    };
    // Flatten the `key` and `keys` values into one list
    let ghost keys0 = keys@;
    match key {
        Some(k) => {
            keys.push(k);
        },
        None => {},
    }
    proof {
        assert(string_views(keys@) =~= all_keys(keys0, key));
    }
    // Keep the descendants which can be parsed
    let mut parseable_descendants: Vec<TypeId> = Vec::new();
    let mut i: usize = 0;
    while i < all_descendants.len()
        invariant
            i <= all_descendants@.len(),
            ids_below(all_descendants@, parseable_type_ids@.len() as int),
            parseable_descendants@ == parseable_of(all_descendants@.take(i as int), parseable_type_ids@),
        decreases all_descendants@.len() - i,
    {
        let id = all_descendants[i];
        proof {
            assert(all_descendants@.take(i + 1) =~= all_descendants@.take(i as int).push(id));
            reveal(Seq::filter);
            assert(all_descendants@.take(i + 1).drop_last() =~= all_descendants@.take(i as int));
        }
        if parseable_type_ids[id.0] {
            parseable_descendants.push(id);
        }
        i = i + 1;
    }
    proof {
        assert(all_descendants@.take(all_descendants@.len() as int) =~= all_descendants@);
    }
    Ok(Type { name, keys, all_descendants, parseable_descendants, inner })
}

/// The token texts after compiling the first `n` types of `src` into those of `out` in turn
/// from the texts `texts`, if each has the right shape (see [`converted_shape`] and
/// [`type_texts`]).
pub open spec fn types_converted(
    src: Seq<(String, super::Type)>,
    desc: Seq<Seq<TypeId>>,
    parseable: Seq<bool>,
    out: Seq<Type>,
    n: int,
    texts: Seq<Seq<char>>,
    names: Seq<Seq<char>>,
) -> Option<Seq<Seq<char>>>
    decreases n,
{
    if n <= 0 || n > src.len() || n > out.len() || n > desc.len() {
        Some(texts)
    } else {
        match types_converted(src, desc, parseable, out, n - 1, texts, names) {
            Some(t) => if converted_shape(src[n - 1].1, src[n - 1].0@, desc[n - 1], parseable, out[n - 1]) {
                type_texts(src[n - 1].1, out[n - 1], t, names)
            } else {
                None
            },
            None => None,
        }
    }
}

/// Compiling the first types only reads those of the output.
pub proof fn lemma_types_converted_frame(
    src: Seq<(String, super::Type)>,
    desc: Seq<Seq<TypeId>>,
    parseable: Seq<bool>,
    out: Seq<Type>,
    out2: Seq<Type>,
    n: int,
    texts: Seq<Seq<char>>,
    names: Seq<Seq<char>>,
)
    requires
        0 <= n <= out.len(),
        n <= out2.len(),
        forall|k: int| 0 <= k < n ==> out[k] == out2[k],
    ensures
        types_converted(src, desc, parseable, out, n, texts, names) == types_converted(src, desc, parseable, out2, n, texts, names),
    decreases n,
{
    if n > 0 {
        lemma_types_converted_frame(src, desc, parseable, out, out2, n - 1, texts, names);
    }
}

/// The first type, from `i` on, which fails to compile, and why.
pub open spec fn first_type_fault(types: Seq<(String, super::Type)>, names: Seq<Seq<char>>, i: int) -> Option<(int, TypeFault)>
    decreases types.len() - i,
{
    if i < 0 || i >= types.len() {
        None
    } else {
        match type_fault(types[i].1, names) {
            Some(f) => Some((i, f)),
            None => first_type_fault(types, names, i + 1),
        }
    }
}

/// The first fault found from `i` on is one of a type at or after `i`.
pub proof fn lemma_first_type_fault(types: Seq<(String, super::Type)>, names: Seq<Seq<char>>, i: int)
    requires
        0 <= i,
    ensures
        first_type_fault(types, names, i) matches Some((k, f)) ==> i <= k < types.len() && type_fault(types[k].1, names) == Some(f),
    decreases types.len() - i,
{
    if i < types.len() && type_fault(types[i].1, names) is None {
        lemma_first_type_fault(types, names, i + 1);
    }
}

/// Compiles the types read from a grammar file, checking the names of child types and that no
/// type is its own descendant.
#[verifier::loop_isolation(false)]
fn convert_types(types: Vec<(String, super::Type)>, token_map: &mut TokenMap) -> (r: Result<(Vec<Type>, TypeMap), ConvertError>)
    requires
        stringy_flags_set(types@),
    ensures
        match resolve_children(types@, type_names(types@), types@.len() as int) {
            Err((child, parent)) => r matches Err(ConvertError::UnknownChildType { name, parent_name }) && name@
                == child && parent_name@ == parent,
            Ok(ch) => match all_descendants(ch, ch.len() as int) {
                Err(c) => r matches Err(ConvertError::TypeCycle(cycle)) && string_views(cycle@) == names_of(c, types@),
                Ok(d) => match first_type_fault(types@, type_names(types@), 0) {
                    Some((i, f)) => r matches Err(e) && fault_is(e, f, types@[i].0@),
                    None => r matches Ok((out, tm)) && out@.len() == types@.len() && tm.names() == type_names(types@)
                        && types_converted(
                        types@,
                        d,
                        parseable_flags(types@),
                        out@,
                        types@.len() as int,
                        old(token_map).texts(),
                        type_names(types@),
                    ) == Some(final(token_map).texts()),
                },
            },
        },
{
    let ghost src = types@;
    let ghost names = type_names(src);
    // Before generating types, assign all names to type ids (because types may refer to
    // child types which appear after themselves).
    let (named_types, type_map) = TypeMap::new(types);
    // Compute the descendants of each type
    let descendants = match compute_type_descendants(&named_types, &type_map) {
        Ok(d) => d,
        Err(e) => {
            return Err(e);
        },
    };
    let ghost ch = resolve_children(src, names, src.len() as int)->Ok_0;
    proof {
        lemma_resolve_children_len(src, names, src.len() as int);
    }
    let ghost d = all_descendants(ch, ch.len() as int)->Ok_0;
    proof {
        lemma_all_descendants_facts(ch, ch.len() as int);
    }
    // Determine which types can actually be parsed (i.e. aren't simply containers)
    let mut parseable_type_ids: Vec<bool> = Vec::new();
    let mut i: usize = 0;
    while i < named_types.len()
        invariant
            i <= named_types@.len(),
            named_types@ == src,
            parseable_type_ids@ == parseable_flags(src).take(i as int),
        decreases named_types@.len() - i,
    {
        let parseable = match &named_types[i].1 {
            super::Type::Pattern { pattern, .. } => pattern.is_some(),
            super::Type::Stringy { .. } => true,
        };
        parseable_type_ids.push(parseable);
        proof {
            assert(parseable_type_ids@ =~= parseable_flags(src).take(i + 1));
        }
        i = i + 1;
    }
    proof {
        assert(parseable_flags(src).take(src.len() as int) =~= parseable_flags(src));
    }
    // Construct the `Type`s for each type read from the file
    let mut remaining = named_types;
    let mut descendants = descendants;
    let mut out: Vec<Type> = Vec::new();
    let n = remaining.len();
    proof {
        assert(d.skip(0) =~= d);
        assert(src.skip(0) =~= src);
        assert(names.len() == src.len());
    }
    let mut i: usize = 0;
    while i < n
        invariant
            n == src.len(),
            i <= n,
            remaining@ == src.skip(i as int),
            resolve_children(src, names, src.len() as int) == Ok::<Seq<Seq<TypeId>>, (Seq<char>, Seq<char>)>(ch),
            all_descendants(ch, ch.len() as int) == Ok::<Seq<Seq<TypeId>>, Seq<TypeId>>(d),
            id_lists(descendants@) == d.skip(i as int),
            d.len() == n,
            forall|k: int| 0 <= k < n ==> ids_below(#[trigger] d[k], n as int),
            parseable_type_ids@ == parseable_flags(src),
            type_map.names() == names,
            stringy_flags_set(src),
            out@.len() == i,
            first_type_fault(src, names, 0) == first_type_fault(src, names, i as int),
            types_converted(src, d, parseable_flags(src), out@, i as int, old(token_map).texts(), names) == Some(token_map.texts()),
        decreases n - i,
    {
        proof {
            assert(descendants@.len() == id_lists(descendants@).len());
        }
        let ghost dv = descendants@;
        let (name, t) = remaining.remove(0);
        let desc = descendants.remove(0);
        proof {
            assert(src[i as int] == (name, t));
            assert(id_lists(dv)[0] == dv[0]@);
            assert(d.skip(i as int)[0] == d[i as int]);
            assert(desc@ == d[i as int]);
            assert(remaining@ =~= src.skip(i + 1));
            assert forall|k: int| 0 <= k < id_lists(descendants@).len() implies id_lists(descendants@)[k] == d.skip(i + 1)[k] by {
                assert(descendants@[k] == dv[k + 1]);
                assert(id_lists(dv)[k + 1] == dv[k + 1]@);
                assert(d.skip(i as int)[k + 1] == d.skip(i + 1)[k]);
            }
            assert(id_lists(descendants@) =~= d.skip(i + 1));
        }
        let ghost before = out@;
        let ghost t_before = token_map.texts();
        let ty = match convert_type(t, name, desc, &parseable_type_ids, token_map, &type_map) {
            Ok(ty) => ty,
            Err(e) => {
                proof {
                    assert(first_type_fault(src, names, i as int) == Some((i as int, type_fault(src[i as int].1, names)->Some_0)));
                }
                return Err(e);
            },
        };
        out.push(ty);
        proof {
            lemma_types_converted_frame(src, d, parseable_flags(src), before, out@, i as int, old(token_map).texts(), names);
        }
        i = i + 1;
    }
    Ok((out, type_map))
}

/// Resolving the children of `n` types lists the children of each of them.
pub proof fn lemma_resolve_children_len(types: Seq<(String, super::Type)>, names: Seq<Seq<char>>, n: int)
    requires
        0 <= n <= types.len(),
    ensures
        resolve_children(types, names, n) matches Ok(ch) ==> ch.len() == n && forall|k: int| 0 <= k < n ==> ids_below(
            #[trigger] ch[k],
            names.len() as int,
        ),
    decreases n,
{
    if n > 0 {
        lemma_resolve_children_len(types, names, n - 1);
        let kids = type_children(types[n - 1].1);
        lemma_resolved_ids_below(kids, names, kids.len() as int);
    }
}

/// Walking the descendants of `n` types lists those of each of them, which lie among the
/// types.
pub proof fn lemma_all_descendants_facts(ch: Seq<Seq<TypeId>>, n: int)
    requires
        0 <= n <= ch.len(),
        forall|k: int| 0 <= k < ch.len() ==> ids_below(#[trigger] ch[k], ch.len() as int),
    ensures
        all_descendants(ch, n) matches Ok(d) ==> d.len() == n && forall|k: int| 0 <= k < n ==> ids_below(
            #[trigger] d[k],
            ch.len() as int,
        ),
    decreases n,
{
    if n > 0 {
        lemma_all_descendants_facts(ch, n - 1);
        lemma_dfs_below(ch, TypeId((n - 1) as usize), Seq::empty(), Seq::empty());
    }
}

/// Walking depth first from a type among the types only reaches types among them.
pub proof fn lemma_dfs_below(ch: Seq<Seq<TypeId>>, id: TypeId, stack: Seq<TypeId>, out: Seq<TypeId>)
    requires
        forall|k: int| 0 <= k < ch.len() ==> ids_below(#[trigger] ch[k], ch.len() as int),
        id.0 < ch.len(),
        ids_below(out, ch.len() as int),
    ensures
        dfs(ch, id, stack, out) matches Ok(o) ==> ids_below(o, ch.len() as int),
    decreases ch.len() - stack.len(), 0int, 0int,
{
    if position_of(stack, id, 0) is None && stack.len() < ch.len() {
        let out1 = if out.contains(id) {
            out
        } else {
            out.push(id)
        };
        lemma_dfs_children_below(ch, ch[id.0 as int], 0, stack.push(id), out1);
    }
}

/// Walking depth first from types among the types only reaches types among them.
pub proof fn lemma_dfs_children_below(ch: Seq<Seq<TypeId>>, kids: Seq<TypeId>, i: int, stack: Seq<TypeId>, out: Seq<TypeId>)
    requires
        forall|k: int| 0 <= k < ch.len() ==> ids_below(#[trigger] ch[k], ch.len() as int),
        ids_below(kids, ch.len() as int),
        ids_below(out, ch.len() as int),
    ensures
        dfs_children(ch, kids, i, stack, out) matches Ok(o) ==> ids_below(o, ch.len() as int),
    decreases ch.len() - stack.len(), 1int, kids.len() - i,
{
    if 0 <= i < kids.len() && stack.len() <= ch.len() {
        lemma_dfs_below(ch, kids[i], stack, out);
        if let Ok(o) = dfs(ch, kids[i], stack, out) {
            lemma_dfs_children_below(ch, kids, i + 1, stack, o);
        }
    }
}

/// What compiling `g` gives: the first error among those of its child type names, its type
/// cycles, its types (in order), its root type name and its whitespace, in that order; or the
/// grammar whose types are compiled from those of `g` (see [`types_converted`]), whose tokens
/// are the texts met while compiling them, and whose root type and whitespace are those named.
pub open spec fn converts(g: SpecGrammar, r: Result<Grammar, ConvertError>) -> bool {
    let types = g.types@;
    let names = type_names(types);
    match resolve_children(types, names, types.len() as int) {
        Err((child, parent)) => r matches Err(ConvertError::UnknownChildType { name, parent_name }) && name@ == child
            && parent_name@ == parent,
        Ok(ch) => match all_descendants(ch, ch.len() as int) {
            Err(c) => r matches Err(ConvertError::TypeCycle(cycle)) && string_views(cycle@) == names_of(c, types),
            Ok(d) => match first_type_fault(types, names, 0) {
                Some((i, f)) => r matches Err(e) && fault_is(e, f, types[i].0@),
                None => match first_index(names, g.root_type@, 0) {
                    None => r matches Err(ConvertError::UnknownRootType(n)) && n@ == g.root_type@,
                    Some(root) => match g.whitespace {
                        super::Whitespace::Chars(source) => match parsed_char_class(class_pattern(source@)) {
                            None => r matches Err(ConvertError::CharSet { source_str, regex_str, .. }) && source_str@
                                == source@ && regex_str@ == class_pattern(source@),
                            Some(parsed) => match class_set(parsed) {
                                None => r matches Err(ConvertError::NotACharClass { source_str, regex_str })
                                    && source_str@ == source@ && regex_str@ == class_pattern(source@),
                                Some(holds) => r matches Ok(grammar) && grammar.spec_root_type().0 == root
                                && grammar.spec_whitespace().charset().wf() && (forall|c: char|
                                grammar.spec_whitespace().charset().chars().contains(c) <==> holds(c))
                                && grammar.spec_types().len() == types.len() && types_converted(
                                types,
                                d,
                                parseable_flags(types),
                                grammar.spec_types(),
                                types.len() as int,
                                Seq::empty(),
                                names,
                            ) == Some(token_texts(grammar.spec_tokens())),
                            },
                        },
                    },
                },
            },
        },
    }
}

/// Convert a [`SpecGrammar`] (likely read from a grammar file) into a full [`Grammar`], or
/// fail with a [`ConvertError`].  This is a largely straightforward process, since the
/// 'shapes' of [`SpecGrammar`] and [`Grammar`] are (intentionally) similar.
pub fn convert(grammar: SpecGrammar) -> (r: Result<Grammar, ConvertError>)
    requires
        stringy_flags_set(grammar.types@),
    ensures
        converts(grammar, r),
{
    let SpecGrammar { root_type, whitespace, types } = grammar;
    // Tokens will be added to this table as discovered
    let mut token_map = TokenMap::new();
    let (types, type_map) = match convert_types(types, &mut token_map) {
        Ok(x) => x,
        Err(e) => {
            return Err(e);
        },
    };
    let root = match type_map.get_root(&root_type) {
        Ok(id) => id,
        Err(e) => {
            return Err(e);
        },
    };
    let whitespace = match convert_whitespace(whitespace) {
        Ok(w) => w,
        Err(e) => {
            return Err(e);
        },
    };
    Ok(Grammar::new(root, whitespace, types, token_map.into_vec()))
}

} // verus!
