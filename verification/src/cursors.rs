//! The locations of the editor's cursors in a syntax tree.

use vstd::prelude::*;

verus! {

/// A struct representing the location of Sapling's cursors.  Each cursor selects a node and,
/// implicitly, the sub-tree rooted at that node.  As such, it doesn't make any sense for a cursor
/// to be a descendant of another cursor (because then part of the tree is selected twice).  In
/// other words, each path from the root to a leaf must contain at most one cursor.
/// Additionally, there must always be at least one cursor in existence - even if this cursor is
/// selecting the whole tree.
///
/// A `Cursors` struct exists for every node which has any cursors in its descendants (including
/// itself); any node which doesn't contain a cursor will not have a corresponding `Cursors`
/// struct.
#[derive(Debug, PartialEq, Eq, Hash)]
pub struct Cursors {
    /// The paths descending from this node which contain cursors (paired with their indices).
    /// There is a cursor in this location if and only if `children` is empty.  These are stored
    /// in ascending order by index.
    children: Vec<(usize, Cursors)>,
}

/// There is a cursor at the end of the path `p` below the node of `c`.
pub closed spec fn has_cursor(c: Cursors, p: Seq<usize>) -> bool
    decreases c,
{
    if c.children@.len() == 0 {
        p.len() == 0
    } else {
        p.len() > 0 && child_has(c.children@, p[0], p.drop_first())
    }
}

/// One of the sub-trees `cs` descends from child `i` and has a cursor at `q` below it.
pub open spec fn child_has(cs: Seq<(usize, Cursors)>, i: usize, q: Seq<usize>) -> bool
    decreases cs,
{
    cs.len() > 0 && ((cs.last().0 == i && has_cursor(cs.last().1, q)) || child_has(
        cs.drop_last(),
        i,
        q,
    ))
}

/// The children of every node are stored in strictly ascending order of their indices.
pub closed spec fn wf(c: Cursors) -> bool
    decreases c,
{
    &&& forall|a: int, b: int|
        0 <= a < b < c.children@.len() ==> #[trigger] c.children@[a].0 < #[trigger] c.children@[b].0
    &&& all_wf(c.children@)
}

pub open spec fn all_wf(cs: Seq<(usize, Cursors)>) -> bool
    decreases cs,
{
    cs.len() == 0 || (all_wf(cs.drop_last()) && wf(cs.last().1))
}

/// The depth of the shallowest cursor below the node of `c` (`c` itself at depth `0`).
pub closed spec fn min_depth(c: Cursors) -> nat
    decreases c,
{
    if c.children@.len() == 0 {
        0
    } else {
        1 + min_child(c.children@)
    }
}

pub open spec fn min_child(cs: Seq<(usize, Cursors)>) -> nat
    decreases cs,
{
    if cs.len() == 0 {
        0
    } else if cs.len() == 1 {
        min_depth(cs.last().1)
    } else {
        let a = min_child(cs.drop_last());
        let b = min_depth(cs.last().1);
        if a <= b {
            a
        } else {
            b
        }
    }
}

/// The depth of the deepest cursor below the node of `c`.
pub closed spec fn height(c: Cursors) -> nat
    decreases c,
{
    if c.children@.len() == 0 {
        0
    } else {
        1 + max_child(c.children@)
    }
}

pub open spec fn max_child(cs: Seq<(usize, Cursors)>) -> nat
    decreases cs,
{
    if cs.len() == 0 {
        0
    } else {
        let a = max_child(cs.drop_last());
        let b = height(cs.last().1);
        if a >= b {
            a
        } else {
            b
        }
    }
}

/// Where a cursor at `p` lands when it moves up `n` levels, stopping at the top node.
pub open spec fn lifted(p: Seq<usize>, n: nat) -> Seq<usize> {
    if p.len() >= n {
        p.take(p.len() - n)
    } else {
        Seq::empty()
    }
}

/// Some cursor of `c` lands at `q` when the cursors move up `n` levels.
pub open spec fn lands(c: Cursors, n: nat, q: Seq<usize>) -> bool {
    exists|p: Seq<usize>| #[trigger] has_cursor(c, p) && lifted(p, n) == q
}

/// After the cursors of `c` move up `n` levels, there is a cursor at `q`: some cursor lands
/// there, and none lands above it (those below a cursor merge into it).
pub open spec fn after_move(c: Cursors, n: nat, q: Seq<usize>) -> bool {
    lands(c, n, q) && forall|k: int| 0 <= k < q.len() ==> !lands(c, n, #[trigger] q.take(k))
}

proof fn lemma_child_has(cs: Seq<(usize, Cursors)>, i: usize, q: Seq<usize>)
    ensures
        child_has(cs, i, q) <==> exists|j: int|
            0 <= j < cs.len() && cs[j].0 == i && #[trigger] has_cursor(cs[j].1, q),
    decreases cs.len(),
{
    if cs.len() > 0 {
        lemma_child_has(cs.drop_last(), i, q);
        if child_has(cs, i, q) {
            if cs.last().0 == i && has_cursor(cs.last().1, q) {
                assert(has_cursor(cs[cs.len() - 1].1, q));
            } else {
                let j = choose|j: int|
                    0 <= j < cs.drop_last().len() && cs.drop_last()[j].0 == i && #[trigger] has_cursor(
                        cs.drop_last()[j].1,
                        q,
                    );
                assert(cs[j] == cs.drop_last()[j]);
                assert(has_cursor(cs[j].1, q));
            }
        }
        if exists|j: int| 0 <= j < cs.len() && cs[j].0 == i && #[trigger] has_cursor(cs[j].1, q) {
            let j = choose|j: int| 0 <= j < cs.len() && cs[j].0 == i && #[trigger] has_cursor(cs[j].1, q);
            if j < cs.len() - 1 {
                assert(cs.drop_last()[j] == cs[j]);
                assert(has_cursor(cs.drop_last()[j].1, q));
            }
        }
    }
}

proof fn lemma_min_child(cs: Seq<(usize, Cursors)>)
    ensures
        forall|j: int| 0 <= j < cs.len() ==> min_child(cs) <= min_depth(#[trigger] cs[j].1),
        forall|j: int| 0 <= j < cs.len() ==> height(#[trigger] cs[j].1) <= max_child(cs),
        cs.len() > 0 ==> exists|j: int| 0 <= j < cs.len() && min_child(cs) == min_depth(#[trigger] cs[j].1),
    decreases cs.len(),
{
    if cs.len() > 0 {
        lemma_min_child(cs.drop_last());
        assert forall|j: int| 0 <= j < cs.len() implies min_child(cs) <= min_depth(#[trigger] cs[j].1) by {
            if j < cs.len() - 1 {
                assert(cs.drop_last()[j] == cs[j]);
            }
        }
        assert forall|j: int| 0 <= j < cs.len() implies height(#[trigger] cs[j].1) <= max_child(cs) by {
            if j < cs.len() - 1 {
                assert(cs.drop_last()[j] == cs[j]);
            }
        }
        if cs.len() == 1 || min_child(cs) == min_depth(cs.last().1) {
            assert(min_child(cs) == min_depth(cs[cs.len() - 1].1));
        } else {
            let j = choose|j: int| 0 <= j < cs.drop_last().len() && min_child(cs.drop_last()) == min_depth(#[trigger] cs.drop_last()[j].1);
            assert(cs.drop_last()[j] == cs[j]);
            assert(min_child(cs) == min_depth(cs[j].1));
        }
    }
}

proof fn lemma_all_wf(cs: Seq<(usize, Cursors)>, j: int)
    requires
        all_wf(cs),
        0 <= j < cs.len(),
    ensures
        wf(cs[j].1),
    decreases cs.len(),
{
    if j < cs.len() - 1 {
        lemma_all_wf(cs.drop_last(), j);
        assert(cs.drop_last()[j] == cs[j]);
    }
}

/// Every cursor lies at least as deep as the shallowest one, and some cursor lies exactly there.
proof fn lemma_min_depth(c: Cursors) -> (p: Seq<usize>)
    ensures
        has_cursor(c, p),
        p.len() == min_depth(c),
        forall|q: Seq<usize>| #[trigger] has_cursor(c, q) ==> q.len() >= min_depth(c),
    decreases c,
{
    let cs = c.children@;
    if cs.len() == 0 {
        Seq::empty()
    } else {
        lemma_min_child(cs);
        let j = choose|j: int| 0 <= j < cs.len() && min_child(cs) == min_depth(#[trigger] cs[j].1);
        assert(decreases_to!(c => c.children));
        assert(decreases_to!(c.children => c.children@));
        assert(decreases_to!(cs => cs[j]));
        assert(decreases_to!(cs[j] => cs[j].1));
        let sub = lemma_min_depth(cs[j].1);
        let p = seq![cs[j].0].add(sub);
        assert(p.drop_first() =~= sub);
        lemma_child_has(cs, cs[j].0, sub);
        assert forall|q: Seq<usize>| #[trigger] has_cursor(c, q) implies q.len() >= min_depth(c) by {
            lemma_child_has(cs, q[0], q.drop_first());
            let k = choose|k: int| 0 <= k < cs.len() && cs[k].0 == q[0] && #[trigger] has_cursor(cs[k].1, q.drop_first());
            assert(decreases_to!(cs => cs[k]));
            assert(decreases_to!(cs[k] => cs[k].1));
            lemma_depth_bound(cs[k].1, q.drop_first());
        }
        p
    }
}

/// Every cursor lies at least as deep as the shallowest one.
proof fn lemma_depth_bound(c: Cursors, q: Seq<usize>)
    requires
        has_cursor(c, q),
    ensures
        q.len() >= min_depth(c),
    decreases c,
{
    let cs = c.children@;
    if cs.len() > 0 {
        lemma_min_child(cs);
        lemma_child_has(cs, q[0], q.drop_first());
        let k = choose|k: int| 0 <= k < cs.len() && cs[k].0 == q[0] && #[trigger] has_cursor(cs[k].1, q.drop_first());
        assert(decreases_to!(c => c.children));
        assert(decreases_to!(c.children => c.children@));
        assert(decreases_to!(cs => cs[k]));
        assert(decreases_to!(cs[k] => cs[k].1));
        lemma_depth_bound(cs[k].1, q.drop_first());
    }
}

/// When every cursor lies deeper than `n`, a cursor lands at `q` exactly when `q` starts with the
/// index of a child below which a cursor lands at the rest of `q`.
proof fn lemma_lands_child(c: Cursors, n: nat, q: Seq<usize>)
    requires
        min_depth(c) > n,
    ensures
        c.children@.len() > 0,
        lands(c, n, q) <==> (q.len() > 0 && exists|j: int|
            0 <= j < c.children@.len() && c.children@[j].0 == q[0] && #[trigger] lands(
                c.children@[j].1,
                n,
                q.drop_first(),
            )),
{
    let cs = c.children@;
    lemma_min_child(cs);
    if lands(c, n, q) {
        let p = choose|p: Seq<usize>| #[trigger] has_cursor(c, p) && lifted(p, n) == q;
        lemma_depth_bound(c, p);
        lemma_child_has(cs, p[0], p.drop_first());
        let j = choose|j: int| 0 <= j < cs.len() && cs[j].0 == p[0] && #[trigger] has_cursor(cs[j].1, p.drop_first());
        assert(q[0] == p[0]);
        assert(lifted(p.drop_first(), n) =~= q.drop_first());
        assert(has_cursor(cs[j].1, p.drop_first()) && lifted(p.drop_first(), n) == q.drop_first());
        assert(lands(cs[j].1, n, q.drop_first()));
    }
    if q.len() > 0 && exists|j: int|
        0 <= j < cs.len() && cs[j].0 == q[0] && #[trigger] lands(cs[j].1, n, q.drop_first()) {
        let j = choose|j: int| 0 <= j < cs.len() && cs[j].0 == q[0] && #[trigger] lands(cs[j].1, n, q.drop_first());
        let p2 = choose|p: Seq<usize>| #[trigger] has_cursor(cs[j].1, p) && lifted(p, n) == q.drop_first();
        lemma_depth_bound(cs[j].1, p2);
        assert(min_depth(cs[j].1) >= min_child(cs));
        assert(p2.len() >= n);
        let p = seq![q[0]].add(p2);
        assert(p.drop_first() =~= p2);
        lemma_child_has(cs, q[0], p2);
        assert(lifted(p2, n) == p2.take(p2.len() - n));
        assert(p.take(p.len() - n) =~= seq![q[0]] + p2.take(p2.len() - n));
        assert(q =~= seq![q[0]] + q.drop_first());
        assert(lifted(p, n) =~= q);
        assert(has_cursor(c, p) && lifted(p, n) == q);
    }
}

/// When every cursor lies deeper than `n`, none lands at the top node.
proof fn lemma_not_lands_top(c: Cursors, n: nat)
    requires
        min_depth(c) > n,
    ensures
        !lands(c, n, Seq::empty()),
{
    if lands(c, n, Seq::empty()) {
        let p = choose|p: Seq<usize>| #[trigger] has_cursor(c, p) && lifted(p, n) == Seq::<usize>::empty();
        lemma_depth_bound(c, p);
        assert(lifted(p, n).len() == p.len() - n);
    }
}

/// The shallowest cursor lies no deeper than the deepest.
proof fn lemma_min_le_height(c: Cursors)
    ensures
        min_depth(c) <= height(c),
    decreases c,
{
    let cs = c.children@;
    if cs.len() > 0 {
        lemma_min_child(cs);
        let j = choose|j: int| 0 <= j < cs.len() && min_child(cs) == min_depth(#[trigger] cs[j].1);
        assert(decreases_to!(c => c.children));
        assert(decreases_to!(c.children => c.children@));
        assert(decreases_to!(cs => cs[j]));
        assert(decreases_to!(cs[j] => cs[j].1));
        lemma_min_le_height(cs[j].1);
    }
}

proof fn lemma_all_wf_intro(cs: Seq<(usize, Cursors)>)
    requires
        forall|j: int| 0 <= j < cs.len() ==> wf(#[trigger] cs[j].1),
    ensures
        all_wf(cs),
    decreases cs.len(),
{
    if cs.len() > 0 {
        assert forall|j: int| 0 <= j < cs.drop_last().len() implies wf(#[trigger] cs.drop_last()[j].1) by {
            assert(cs.drop_last()[j] == cs[j]);
        }
        lemma_all_wf_intro(cs.drop_last());
        assert(wf(cs[cs.len() - 1].1));
    }
}

proof fn lemma_max_child_bound(ncs: Seq<(usize, Cursors)>, cs: Seq<(usize, Cursors)>)
    requires
        ncs.len() == cs.len(),
        forall|j: int| 0 <= j < cs.len() ==> height(#[trigger] ncs[j].1) <= height(cs[j].1),
    ensures
        max_child(ncs) <= max_child(cs),
    decreases cs.len(),
{
    if cs.len() > 0 {
        assert forall|j: int| 0 <= j < cs.drop_last().len() implies height(#[trigger] ncs.drop_last()[j].1) <= height(cs.drop_last()[j].1) by {
            assert(ncs.drop_last()[j] == ncs[j]);
            assert(cs.drop_last()[j] == cs[j]);
        }
        lemma_max_child_bound(ncs.drop_last(), cs.drop_last());
        assert(height(ncs[ncs.len() - 1].1) <= height(cs[cs.len() - 1].1));
    }
}

/// When every cursor lies deeper than `n`, and each sub-tree of `c` was moved up `n` levels into
/// the sub-tree of `r` for the same child, the cursors of `r` are those of `c` moved up.
proof fn lemma_moved_children(c: Cursors, r: Cursors, n: nat, q: Seq<usize>)
    requires
        wf(c),
        min_depth(c) > n,
        r.children@.len() == c.children@.len(),
        forall|j: int| 0 <= j < c.children@.len() ==> (#[trigger] r.children@[j]).0 == c.children@[j].0,
        forall|j: int| 0 <= j < c.children@.len() && min_depth(c.children@[j].1) >= n ==> forall|q2: Seq<usize>|
            #[trigger] has_cursor(r.children@[j].1, q2) <==> after_move(c.children@[j].1, n, q2),
    ensures
        has_cursor(r, q) <==> after_move(c, n, q),
{
    let cs = c.children@;
    let rs = r.children@;
    lemma_min_child(cs);
    lemma_lands_child(c, n, q);
    lemma_not_lands_top(c, n);
    if q.len() > 0 {
        lemma_child_has(rs, q[0], q.drop_first());
        if has_cursor(r, q) {
            let j = choose|j: int| 0 <= j < rs.len() && rs[j].0 == q[0] && #[trigger] has_cursor(rs[j].1, q.drop_first());
            assert(min_depth(cs[j].1) >= n);
            assert(after_move(cs[j].1, n, q.drop_first()));
            assert(lands(cs[j].1, n, q.drop_first()));
            assert forall|k: int| 0 <= k < q.len() implies !lands(c, n, #[trigger] q.take(k)) by {
                if k == 0 {
                    assert(q.take(0) =~= Seq::<usize>::empty());
                } else {
                    lemma_lands_child(c, n, q.take(k));
                    assert(q.take(k).drop_first() =~= q.drop_first().take(k - 1));
                    if lands(c, n, q.take(k)) {
                        let j2 = choose|j2: int| 0 <= j2 < cs.len() && cs[j2].0 == q.take(k)[0] && #[trigger] lands(cs[j2].1, n, q.take(k).drop_first());
                        if j2 != j {
                            if j2 < j {
                                assert(cs[j2].0 < cs[j].0);
                            } else {
                                assert(cs[j].0 < cs[j2].0);
                            }
                        }
                        assert(!lands(cs[j].1, n, q.drop_first().take(k - 1)));
                    }
                }
            }
        }
        if after_move(c, n, q) {
            let j = choose|j: int| 0 <= j < cs.len() && cs[j].0 == q[0] && #[trigger] lands(cs[j].1, n, q.drop_first());
            assert(min_depth(cs[j].1) >= n);
            assert forall|k: int| 0 <= k < q.drop_first().len() implies !lands(cs[j].1, n, #[trigger] q.drop_first().take(k)) by {
                assert(q.take(k + 1).drop_first() =~= q.drop_first().take(k));
                assert(q.take(k + 1)[0] == q[0]);
                lemma_lands_child(c, n, q.take(k + 1));
                assert(!lands(c, n, q.take(k + 1)));
            }
            assert(after_move(cs[j].1, n, q.drop_first()));
            assert(has_cursor(rs[j].1, q.drop_first()));
        }
    } else {
        assert(!has_cursor(r, q));
    }
}

impl Cursors {
    /// The sub-trees holding cursors, with the indices of the children they descend from.
    pub closed spec fn spec_children(&self) -> Seq<(usize, Cursors)> {
        self.children@
    }

    /// Creates a set of `Cursors`, containing one cursor at the tree root.
    pub fn cursor() -> (c: Self)
        ensures
            c.spec_children().len() == 0,
    {
        Self { children: Vec::new() }
    }

    /// Creates a set of `Cursors` from the sub-trees that hold them, paired with the indices of
    /// the children they descend from.
    pub fn with_children(children: Vec<(usize, Cursors)>) -> (c: Self)
        ensures
            c.spec_children() == children@,
    {
        Self { children }
    }

    /// Move all the cursors up `n` levels in the tree, capping out at current node.  If two
    /// cursors would end up in the same path from the root, then the lower one is merged into
    /// the higher one.
    ///
    /// The time complexity of this operation is linear in the size of `self`, and constant in
    /// `n`.
    pub fn move_up(&mut self, n: usize)
        requires
            wf(*old(self)),
            height(*old(self)) < usize::MAX,
        ensures
            wf(*final(self)),
            forall|q: Seq<usize>| #[trigger] has_cursor(*final(self), q) <==> after_move(
                *old(self),
                n as nat,
                q,
            ),
    {
        let ghost c = *self;
        let min_depth = self.move_up_returning_min_depth(n);
        // If the shallowest cursor would move above this node, every cursor is capped here
        if min_depth < n {
            self.children.clear();
            proof {
                let p = lemma_min_depth(c);
                assert(lifted(p, n as nat) =~= Seq::<usize>::empty());
                assert(lands(c, n as nat, Seq::empty()));
                assert forall|q: Seq<usize>| #[trigger] has_cursor(*self, q) <==> after_move(c, n as nat, q) by {
                    if q.len() > 0 {
                        assert(q.take(0) =~= Seq::<usize>::empty());
                    } else {
                        assert(q =~= Seq::<usize>::empty());
                    }
                }
            }
        }
    }

    /// Same as [`Self::move_up`], but returns the depth of the shallowest cursor below this
    /// node (where `self` is at depth 0).  This extra information is used by parent nodes to
    /// determine where their cursors will end up.  When that depth is at least `n`, the cursors
    /// below this node have moved; otherwise the shallowest of them moves above this node, and
    /// the node that it lands on merges them all.
    fn move_up_returning_min_depth(&mut self, n: usize) -> (m: usize)
        requires
            wf(*old(self)),
            height(*old(self)) < usize::MAX,
        ensures
            m == min_depth(*old(self)),
            wf(*final(self)),
            height(*final(self)) <= height(*old(self)),
            m >= n ==> forall|q: Seq<usize>| #[trigger] has_cursor(*final(self), q) <==> after_move(
                *old(self),
                n as nat,
                q,
            ),
        decreases height(*old(self)),
    {
        let ghost c = *self;
        let ghost cs = self.children@;
        if self.children.len() == 0 {
            // `self` is a cursor and therefore can't be moved up
            proof {
                assert(has_cursor(c, Seq::<usize>::empty()));
                assert(lifted(Seq::<usize>::empty(), n as nat) =~= Seq::<usize>::empty());
                assert(lands(c, n as nat, Seq::<usize>::empty()));
                assert forall|q: Seq<usize>| #[trigger] has_cursor(*self, q) <==> after_move(c, n as nat, q) by {
                    if q.len() == 0 {
                        assert(q =~= Seq::<usize>::empty());
                    }
                    if after_move(c, n as nat, q) {
                        let p = choose|p: Seq<usize>| #[trigger] has_cursor(c, p) && lifted(p, n as nat) == q;
                        assert(p.len() == 0);
                    }
                }
            }
            return 0;
        }
        proof {
            lemma_min_child(cs);
        }
        let mut children: Vec<(usize, Cursors)> = Vec::new();
        std::mem::swap(&mut children, &mut self.children);
        let mut new_children: Vec<(usize, Cursors)> = Vec::new();
        let mut min: usize = 0;
        let mut first = true;
        for entry in it: children
            invariant
                cs == it.seq(),
                c == *old(self),
                first == (it.index() == 0),
                cs.len() > 0,
                wf(c),
                c.children@ == cs,
                height(c) < usize::MAX,
                new_children@.len() == it.index(),
                it.index() > 0 ==> min == min_child(cs.take(it.index() as int)),
                forall|j: int| 0 <= j < it.index() ==> (#[trigger] new_children@[j]).0 == cs[j].0,
                forall|j: int| 0 <= j < it.index() ==> wf((#[trigger] new_children@[j]).1),
                forall|j: int| 0 <= j < it.index() ==> height((#[trigger] new_children@[j]).1) <= height(cs[j].1),
                forall|j: int| 0 <= j < it.index() && min_depth(cs[j].1) >= n ==> forall|q: Seq<usize>|
                    #[trigger] has_cursor(new_children@[j].1, q) <==> after_move(cs[j].1, n as nat, q),
            decreases cs.len() - it.index(),
        {
            let ghost i = it.index();
            let (idx, mut child) = entry;
            proof {
                assert(cs[i as int] == (idx, child));
                assert(decreases_to!(c => c.children));
                assert(decreases_to!(c.children => c.children@));
                assert(decreases_to!(cs => cs[i as int]));
                assert(decreases_to!(cs[i as int] => cs[i as int].1));
                lemma_all_wf(cs, i as int);
                lemma_min_child(cs);
                assert(height(child) <= max_child(cs));
                assert(height(child) < height(c));
            }
            let d = child.move_up_returning_min_depth(n);
            proof {
                assert(cs.take(i + 1).drop_last() =~= cs.take(i as int));
                assert(cs.take(i + 1).last() == cs[i as int]);
            }
            if first || d < min {
                min = d;
            }
            first = false;
            new_children.push((idx, child));
        }
        proof {
            assert(cs.take(cs.len() as int) =~= cs);
            lemma_min_child(cs);
            let j = choose|j: int| 0 <= j < cs.len() && min_child(cs) == min_depth(#[trigger] cs[j].1);
            lemma_min_le_height(cs[j].1);
        }
        // This node is 1 level higher than its children
        let min_depth = min + 1;
        self.children = new_children;
        proof {
            // The new tree keeps the order of the indices, well-formedness and height bound
            let ncs = self.children@;
            assert forall|a: int, b: int| 0 <= a < b < ncs.len() implies #[trigger] ncs[a].0 < #[trigger] ncs[b].0 by {
                assert(cs[a].0 < cs[b].0);
            }
            lemma_all_wf_intro(ncs);
            lemma_max_child_bound(ncs, cs);
        }
        if min_depth == n {
            // The nearest cursor is `n` steps away, so that cursor will be moved onto `self`
            // and any deeper cursors will get merged into `self`.
            self.children.clear();
            proof {
                let p = lemma_min_depth(c);
                assert(lifted(p, n as nat) =~= Seq::<usize>::empty());
                assert(lands(c, n as nat, Seq::empty()));
                assert(wf(*self));
                assert forall|q: Seq<usize>| #[trigger] has_cursor(*self, q) <==> after_move(c, n as nat, q) by {
                    if q.len() > 0 {
                        assert(q.take(0) =~= Seq::<usize>::empty());
                    } else {
                        assert(q =~= Seq::<usize>::empty());
                    }
                }
            }
        } else if min_depth > n {
            proof {
                let ncs = self.children@;
                assert forall|q: Seq<usize>| #[trigger] has_cursor(*self, q) <==> after_move(c, n as nat, q) by {
                    lemma_moved_children(c, *self, n as nat, q);
                }
            }
        }
        min_depth
    }

    /// `true` if the set of `Cursors` at this node is just a single cursor
    pub fn is_cursor(&self) -> (b: bool)
        ensures
            b == (self.spec_children().len() == 0),
    {
        self.children.len() == 0
    }
}

} // verus!
