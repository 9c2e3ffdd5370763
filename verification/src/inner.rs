//! The node arena: a growable, index-addressed store of trie nodes, the spec
//! model that interprets it (reachability, subtrees, stored contents), and
//! the traversal state machines that decide how to reach or insert a prefix.
//!
//! Index 0 is permanently reserved for the root and always holds the identity
//! prefix.  Links only ever point from a node to one with a strictly longer
//! prefix, so every parent chain terminates; reachability and subtree
//! membership are defined by recursion up those chains.

use vstd::prelude::*;
use crate::bits::{
    branch_right, is_prefix_of, is_strict_prefix_of, lemma_prefix_refl,
    lemma_proper_prefix_shorter,
};
use crate::prefix::{to_right, Prefix};

verus! {

/// One slot of the arena.
pub(crate) struct Node<P, T> {
    pub(crate) prefix: P,
    pub(crate) value: Option<T>,
    pub(crate) left: Option<usize>,
    pub(crate) right: Option<usize>,
}

impl<P, T> Node<P, T> {
    /// The prefix and value of this node, when a value is stored.
    pub(crate) fn prefix_value(&self) -> (r: Option<(&P, &T)>)
        ensures
            match r {
                Some(pv) => self.value == Some(*pv.1) && *pv.0 == self.prefix,
                None => self.value is None,
            },
    {
        match &self.value {
            Some(v) => Some((&self.prefix, v)),
            None => None,
        }
    }
}

/// The arena itself: all nodes of one trie, addressed by index.
pub(crate) struct Table<P, T> {
    pub(crate) nodes: Vec<Node<P, T>>,
}

/// The bit string stored at slot `i`.
pub(crate) open spec fn key_of<P: Prefix, T>(t: Seq<Node<P, T>>, i: int) -> Seq<bool> {
    t[i].prefix.bits()
}

/// The child link of slot `i` on side `s` (`true` = right).
pub(crate) open spec fn child_of<P, T>(t: Seq<Node<P, T>>, i: int, s: bool) -> Option<usize> {
    if s {
        t[i].right
    } else {
        t[i].left
    }
}

/// Slot `i` links to slot `c` on side `s`.
pub(crate) open spec fn is_link<P, T>(t: Seq<Node<P, T>>, i: int, s: bool, c: int) -> bool {
    &&& 0 <= i < t.len()
    &&& child_of(t, i, s) is Some
    &&& child_of(t, i, s)->0 as int == c
}

/// Every link is in range, never points at the root, strictly extends the
/// parent's prefix, and extends it on the side it hangs from.
pub(crate) open spec fn links_wf<P: Prefix, T>(t: Seq<Node<P, T>>) -> bool {
    forall|i: int, s: bool, c: int|
        #[trigger] is_link(t, i, s, c) ==> {
            &&& 0 < c < t.len()
            &&& is_strict_prefix_of(key_of(t, i), key_of(t, c))
            &&& branch_right(key_of(t, i), key_of(t, c)) == s
        }
}

/// No slot hangs below two parents (nor below one parent on both sides).
pub(crate) open spec fn parent_unique<P, T>(t: Seq<Node<P, T>>) -> bool {
    forall|i1: int, s1: bool, i2: int, s2: bool, c: int|
        #[trigger] is_link(t, i1, s1, c) && #[trigger] is_link(t, i2, s2, c) ==> i1 == i2 && s1
            == s2
}

/// Slot `i` is reachable from the root by child links.  Defined upward: the
/// parent chain of a slot has strictly decreasing prefix lengths, so the
/// recursion terminates.
pub(crate) open spec fn reach<P: Prefix, T>(t: Seq<Node<P, T>>, i: int) -> bool
    decreases key_of(t, i).len(),
        when links_wf(t) && 0 <= i < t.len()
{
    if i == 0 {
        true
    } else if exists|j: int, s: bool| is_link(t, j, s, i) {
        let (j, s) = choose|j: int, s: bool| is_link(t, j, s, i);
        reach(t, j)
    } else {
        false
    }
}

/// Slot `i` lies in the subtree rooted at slot `a`: the parent chain of `i`
/// passes through `a`.
pub(crate) open spec fn in_subtree<P: Prefix, T>(t: Seq<Node<P, T>>, a: int, i: int) -> bool
    decreases key_of(t, i).len(),
        when links_wf(t) && 0 <= i < t.len()
{
    if i == a {
        true
    } else if exists|j: int, s: bool| is_link(t, j, s, i) {
        let (j, s) = choose|j: int, s: bool| is_link(t, j, s, i);
        in_subtree(t, a, j)
    } else {
        false
    }
}

/// The arena is well formed: the root sits at slot 0 with the identity
/// prefix, links are well formed with unique parents, every slot holding a
/// value is reachable, and no two reachable slots share a prefix.
pub(crate) open spec fn table_wf<P: Prefix, T>(t: Seq<Node<P, T>>) -> bool {
    &&& 1 <= t.len()
    &&& key_of(t, 0).len() == 0
    &&& links_wf(t)
    &&& parent_unique(t)
    &&& forall|i: int| 0 <= i < t.len() && t[i].value is Some ==> #[trigger] reach(t, i)
    &&& forall|i: int, j: int|
        0 <= i < t.len() && 0 <= j < t.len() && #[trigger] reach(t, i) && #[trigger] reach(t, j)
            && i != j ==> key_of(t, i) != key_of(t, j)
}

/// Some slot stores a value under the bit string `k`.
pub(crate) open spec fn has_key<P: Prefix, T>(t: Seq<Node<P, T>>, k: Seq<bool>) -> bool {
    exists|i: int| 0 <= i < t.len() && t[i].value is Some && #[trigger] key_of(t, i) == k
}

/// The slot storing a value under `k` (unique in a well-formed arena).
pub(crate) open spec fn idx_with_key<P: Prefix, T>(t: Seq<Node<P, T>>, k: Seq<bool>) -> int {
    choose|i: int| 0 <= i < t.len() && t[i].value is Some && #[trigger] key_of(t, i) == k
}

/// The stored contents of the arena, as a map from bit strings to values.
pub(crate) open spec fn contents<P: Prefix, T>(t: Seq<Node<P, T>>) -> Map<Seq<bool>, T> {
    Map::new(|k: Seq<bool>| has_key(t, k), |k: Seq<bool>| t[idx_with_key(t, k)].value->0)
}

/// Every reachable slot whose key extends `k` lies in the subtree of `cur`:
/// the invariant of every search that walks from the root towards `k`.
pub(crate) open spec fn covers_ext<P: Prefix, T>(t: Seq<Node<P, T>>, cur: int, k: Seq<bool>) -> bool {
    forall|j: int|
        0 <= j < t.len() && #[trigger] reach(t, j) && is_prefix_of(k, key_of(t, j))
            ==> in_subtree(t, cur, j)
}

/// Every reachable slot whose key is contained in `k` and longer than `cur`'s
/// lies in the subtree of `cur`: the invariant of the covering walk.
pub(crate) open spec fn covers_anc<P: Prefix, T>(t: Seq<Node<P, T>>, cur: int, k: Seq<bool>) -> bool {
    forall|j: int|
        0 <= j < t.len() && #[trigger] reach(t, j) && is_prefix_of(key_of(t, j), k) && key_of(
            t,
            j,
        ).len() > key_of(t, cur).len() ==> in_subtree(t, cur, j)
}

/// A subtree root's key is an initial segment of every key below it.
pub(crate) proof fn lemma_subtree_prefix<P: Prefix, T>(t: Seq<Node<P, T>>, a: int, i: int)
    requires
        links_wf(t),
        0 <= a < t.len(),
        0 <= i < t.len(),
        in_subtree(t, a, i),
    ensures
        is_prefix_of(key_of(t, a), key_of(t, i)),
    decreases key_of(t, i).len(),
{
    if i == a {
        lemma_prefix_refl(key_of(t, a));
    } else {
        let (j, s) = choose|j: int, s: bool| is_link(t, j, s, i);
        assert(is_link(t, j, s, i));
        lemma_subtree_prefix(t, a, j);
        crate::bits::lemma_prefix_trans(key_of(t, a), key_of(t, j), key_of(t, i));
    }
}

/// Below a subtree root, and distinct from it, means a strictly longer key.
pub(crate) proof fn lemma_subtree_strict<P: Prefix, T>(t: Seq<Node<P, T>>, a: int, i: int)
    requires
        links_wf(t),
        0 <= a < t.len(),
        0 <= i < t.len(),
        in_subtree(t, a, i),
        i != a,
    ensures
        is_strict_prefix_of(key_of(t, a), key_of(t, i)),
    decreases key_of(t, i).len(),
{
    let (j, s) = choose|j: int, s: bool| is_link(t, j, s, i);
    assert(is_link(t, j, s, i));
    if j == a {
    } else {
        lemma_subtree_strict(t, a, j);
        crate::bits::lemma_prefix_trans(key_of(t, a), key_of(t, j), key_of(t, i));
    }
}

/// Subtree membership composes.
pub(crate) proof fn lemma_subtree_trans<P: Prefix, T>(t: Seq<Node<P, T>>, a: int, b: int, i: int)
    requires
        links_wf(t),
        0 <= a < t.len(),
        0 <= b < t.len(),
        0 <= i < t.len(),
        in_subtree(t, a, b),
        in_subtree(t, b, i),
    ensures
        in_subtree(t, a, i),
    decreases key_of(t, i).len(),
{
    if i == b {
    } else if i == a {
    } else {
        let (j, s) = choose|j: int, s: bool| is_link(t, j, s, i);
        assert(is_link(t, j, s, i));
        lemma_subtree_trans(t, a, b, j);
    }
}

/// Reachability from the root is membership in the root's subtree.
pub(crate) proof fn lemma_reach_is_root_subtree<P: Prefix, T>(t: Seq<Node<P, T>>, i: int)
    requires
        links_wf(t),
        0 <= i < t.len(),
        1 <= t.len(),
    ensures
        reach(t, i) == in_subtree(t, 0, i),
    decreases key_of(t, i).len(),
{
    if i == 0 {
    } else if exists|j: int, s: bool| is_link(t, j, s, i) {
        let (j, s) = choose|j: int, s: bool| is_link(t, j, s, i);
        assert(is_link(t, j, s, i));
        lemma_reach_is_root_subtree(t, j);
    }
}

/// A node below a child of `a` extends `a`'s key on that child's side.
pub(crate) proof fn lemma_subtree_side<P: Prefix, T>(
    t: Seq<Node<P, T>>,
    a: int,
    s: bool,
    c: int,
    j: int,
)
    requires
        links_wf(t),
        0 <= j < t.len(),
        is_link(t, a, s, c),
        in_subtree(t, c, j),
    ensures
        is_strict_prefix_of(key_of(t, a), key_of(t, j)),
        branch_right(key_of(t, a), key_of(t, j)) == s,
{
    lemma_subtree_prefix(t, c, j);
    crate::bits::lemma_prefix_index(key_of(t, c), key_of(t, j));
    crate::bits::lemma_prefix_trans(key_of(t, a), key_of(t, c), key_of(t, j));
}

/// Walking one known link down stays within any subtree that held the parent.
pub(crate) proof fn lemma_subtree_extend<P: Prefix, T>(
    t: Seq<Node<P, T>>,
    a: int,
    j: int,
    s: bool,
    i: int,
)
    requires
        links_wf(t),
        parent_unique(t),
        0 <= a < t.len(),
        0 <= i < t.len(),
        in_subtree(t, a, j),
        is_link(t, j, s, i),
    ensures
        in_subtree(t, a, i),
{
    if i != a {
        let (j2, s2) = choose|j2: int, s2: bool| is_link(t, j2, s2, i);
        assert(is_link(t, j2, s2, i));
        assert(j2 == j);
    }
}

/// Same, for reachability.
pub(crate) proof fn lemma_reach_extend<P: Prefix, T>(t: Seq<Node<P, T>>, j: int, s: bool, i: int)
    requires
        links_wf(t),
        parent_unique(t),
        0 <= i < t.len(),
        reach(t, j),
        is_link(t, j, s, i),
    ensures
        reach(t, i),
{
    if i != 0 {
        let (j2, s2) = choose|j2: int, s2: bool| is_link(t, j2, s2, i);
        assert(is_link(t, j2, s2, i));
        assert(j2 == j);
    }
}

/// Any strict descendant of `a` hangs below the child of `a` on the side its
/// own key dictates.  Returns that child.
pub(crate) proof fn lemma_subtree_step<P: Prefix, T>(t: Seq<Node<P, T>>, a: int, i: int) -> (c:
    int)
    requires
        links_wf(t),
        0 <= a < t.len(),
        0 <= i < t.len(),
        in_subtree(t, a, i),
        i != a,
    ensures
        is_link(t, a, branch_right(key_of(t, a), key_of(t, i)), c),
        in_subtree(t, c, i),
        is_strict_prefix_of(key_of(t, a), key_of(t, i)),
    decreases key_of(t, i).len(),
{
    lemma_subtree_strict(t, a, i);
    let (j, s) = choose|j: int, s: bool| is_link(t, j, s, i);
    assert(is_link(t, j, s, i));
    if j == a {
        assert(in_subtree(t, i, i));
        i
    } else {
        let c = lemma_subtree_step(t, a, j);
        // i hangs below j, which hangs below c: unfold one step at i.
        assert(in_subtree(t, c, i)) by {
            if i != c {
                assert(in_subtree(t, c, j));
            }
        }
        // the branch direction of i's key below a equals that of j's key.
        lemma_subtree_prefix(t, c, j);
        crate::bits::lemma_prefix_index(key_of(t, a), key_of(t, j));
        crate::bits::lemma_prefix_index(key_of(t, j), key_of(t, i));
        assert(branch_right(key_of(t, a), key_of(t, i)) == branch_right(
            key_of(t, a),
            key_of(t, j),
        ));
        c
    }
}

/// At the root, both search invariants hold for any key.
pub(crate) proof fn lemma_search_init<P: Prefix, T>(t: Seq<Node<P, T>>, k: Seq<bool>)
    requires
        table_wf(t),
    ensures
        covers_ext(t, 0, k),
        covers_anc(t, 0, k),
{
    assert forall|j: int| 0 <= j < t.len() && #[trigger] reach(t, j) implies in_subtree(
        t,
        0,
        j,
    ) by {
        lemma_reach_is_root_subtree(t, j);
    }
}

/// Entering the child on the key's side preserves the extension invariant.
pub(crate) proof fn lemma_search_descend<P: Prefix, T>(
    t: Seq<Node<P, T>>,
    k: Seq<bool>,
    cur: int,
    c: int,
)
    requires
        table_wf(t),
        0 <= cur < t.len(),
        is_strict_prefix_of(key_of(t, cur), k),
        covers_ext(t, cur, k),
        is_link(t, cur, branch_right(key_of(t, cur), k), c),
    ensures
        covers_ext(t, c, k),
{
    assert forall|j: int|
        0 <= j < t.len() && #[trigger] reach(t, j) && is_prefix_of(k, key_of(t, j)) implies in_subtree(
        t,
        c,
        j,
    ) by {
        assert(in_subtree(t, cur, j));
        assert(key_of(t, j).len() >= k.len() > key_of(t, cur).len());
        let c2 = lemma_subtree_step(t, cur, j);
        crate::bits::lemma_prefix_index(k, key_of(t, j));
        assert(branch_right(key_of(t, cur), key_of(t, j)) == branch_right(key_of(t, cur), k));
        assert(c2 == c);
    }
}

/// When the child on the key's side is missing, or its prefix is unrelated
/// to the key, nothing reachable extends the key.
pub(crate) proof fn lemma_search_empty<P: Prefix, T>(t: Seq<Node<P, T>>, k: Seq<bool>, cur: int)
    requires
        table_wf(t),
        0 <= cur < t.len(),
        is_strict_prefix_of(key_of(t, cur), k),
        covers_ext(t, cur, k),
        match child_of(t, cur, branch_right(key_of(t, cur), k)) {
            Some(c) => !is_prefix_of(key_of(t, c as int), k) && !is_prefix_of(
                k,
                key_of(t, c as int),
            ),
            None => true,
        },
    ensures
        forall|j: int|
            0 <= j < t.len() && #[trigger] reach(t, j) ==> !is_prefix_of(k, key_of(t, j)),
        !has_key(t, k),
        !contents(t).contains_key(k),
{
    let s = branch_right(key_of(t, cur), k);
    assert forall|j: int| 0 <= j < t.len() && #[trigger] reach(t, j) implies !is_prefix_of(
        k,
        key_of(t, j),
    ) by {
        if is_prefix_of(k, key_of(t, j)) {
            assert(in_subtree(t, cur, j));
            assert(key_of(t, j).len() >= k.len() > key_of(t, cur).len());
            let c2 = lemma_subtree_step(t, cur, j);
            crate::bits::lemma_prefix_index(k, key_of(t, j));
            assert(branch_right(key_of(t, cur), key_of(t, j)) == s);
            assert(child_of(t, cur, s) == Some(c2 as usize));
            lemma_subtree_prefix(t, c2, j);
            if key_of(t, c2).len() <= k.len() {
                crate::bits::lemma_prefix_linear(key_of(t, c2), k, key_of(t, j));
            } else {
                crate::bits::lemma_prefix_linear(k, key_of(t, c2), key_of(t, j));
            }
        }
    }
    if has_key(t, k) {
        let i = choose|i: int|
            0 <= i < t.len() && t[i].value is Some && #[trigger] key_of(t, i) == k;
        assert(reach(t, i));
        crate::bits::lemma_prefix_refl(k);
        assert(false);
    }
}

/// Arriving at a node whose key is exactly `k`: its subtree is exactly the
/// reachable extensions of `k`, it is the only reachable node keyed `k`, and
/// the stored contents at `k` are its value.
pub(crate) proof fn lemma_search_reached<P: Prefix, T>(t: Seq<Node<P, T>>, k: Seq<bool>, cur: int)
    requires
        table_wf(t),
        0 <= cur < t.len(),
        reach(t, cur),
        key_of(t, cur) == k,
        covers_ext(t, cur, k),
    ensures
        forall|j: int|
            0 <= j < t.len() && #[trigger] reach(t, j) ==> (is_prefix_of(k, key_of(t, j))
                <==> in_subtree(t, cur, j)),
        forall|j: int|
            0 <= j < t.len() && #[trigger] reach(t, j) && key_of(t, j) == k ==> j == cur,
        has_key(t, k) == (t[cur].value is Some),
        t[cur].value is Some ==> contents(t).contains_key(k) && contents(t)[k] == t[
            cur].value->0,
        !(t[cur].value is Some) ==> !contents(t).contains_key(k),
{
    assert forall|j: int| 0 <= j < t.len() && #[trigger] reach(t, j) implies (is_prefix_of(
        k,
        key_of(t, j),
    ) <==> in_subtree(t, cur, j)) by {
        if in_subtree(t, cur, j) {
            lemma_subtree_prefix(t, cur, j);
        }
    }
    if t[cur].value is Some {
        assert(has_key(t, k)) by {
            assert(key_of(t, cur) == k);
        }
        let i = idx_with_key(t, k);
        assert(0 <= i < t.len() && t[i].value is Some && key_of(t, i) == k);
        assert(reach(t, i));
        crate::bits::lemma_prefix_refl(k);
        assert(i == cur);
    } else {
        if has_key(t, k) {
            let i = choose|i: int|
                0 <= i < t.len() && t[i].value is Some && #[trigger] key_of(t, i) == k;
            assert(reach(t, i));
            crate::bits::lemma_prefix_refl(k);
            assert(i == cur);
            assert(false);
        }
    }
}

/// Arriving above a lone child whose key extends `k`: that child's subtree is
/// exactly the reachable extensions of `k`, and no reachable node is keyed
/// exactly `k`.
pub(crate) proof fn lemma_search_sub_above<P: Prefix, T>(
    t: Seq<Node<P, T>>,
    k: Seq<bool>,
    cur: int,
    c: int,
)
    requires
        table_wf(t),
        0 <= cur < t.len(),
        is_strict_prefix_of(key_of(t, cur), k),
        covers_ext(t, cur, k),
        is_link(t, cur, branch_right(key_of(t, cur), k), c),
        is_strict_prefix_of(k, key_of(t, c)),
    ensures
        forall|j: int|
            0 <= j < t.len() && #[trigger] reach(t, j) ==> (is_prefix_of(k, key_of(t, j))
                <==> in_subtree(t, c, j)),
        forall|j: int| 0 <= j < t.len() && #[trigger] reach(t, j) ==> key_of(t, j) != k,
        !has_key(t, k),
        !contents(t).contains_key(k),
{
    lemma_search_descend(t, k, cur, c);
    assert forall|j: int| 0 <= j < t.len() && #[trigger] reach(t, j) implies (is_prefix_of(
        k,
        key_of(t, j),
    ) <==> in_subtree(t, c, j)) by {
        if in_subtree(t, c, j) {
            lemma_subtree_prefix(t, c, j);
            crate::bits::lemma_prefix_trans(k, key_of(t, c), key_of(t, j));
        }
    }
    assert forall|j: int| 0 <= j < t.len() && #[trigger] reach(t, j) implies key_of(t, j)
        != k by {
        if key_of(t, j) == k {
            crate::bits::lemma_prefix_refl(k);
            assert(in_subtree(t, c, j));
            lemma_subtree_prefix(t, c, j);
            assert(key_of(t, c).len() <= k.len());
        }
    }
    if has_key(t, k) {
        let i = choose|i: int|
            0 <= i < t.len() && t[i].value is Some && #[trigger] key_of(t, i) == k;
        assert(reach(t, i));
        assert(false);
    }
}

/// Entering the child on the key's side during a covering walk: the ancestor
/// invariant moves down, and the only covering key between the two nodes is
/// the child's own.
pub(crate) proof fn lemma_cover_descend<P: Prefix, T>(
    t: Seq<Node<P, T>>,
    k: Seq<bool>,
    cur: int,
    c: int,
)
    requires
        table_wf(t),
        0 <= cur < t.len(),
        reach(t, cur),
        is_strict_prefix_of(key_of(t, cur), k),
        covers_anc(t, cur, k),
        is_link(t, cur, branch_right(key_of(t, cur), k), c),
        is_prefix_of(key_of(t, c), k),
    ensures
        covers_anc(t, c, k),
        forall|j: int|
            0 <= j < t.len() && #[trigger] reach(t, j) && is_prefix_of(key_of(t, j), k) && key_of(
                t,
                j,
            ).len() > key_of(t, cur).len() && j != c ==> key_of(t, j).len() > key_of(t, c).len(),
{
    assert forall|j: int|
        0 <= j < t.len() && #[trigger] reach(t, j) && is_prefix_of(key_of(t, j), k) && key_of(
            t,
            j,
        ).len() > key_of(t, cur).len() && j != c implies in_subtree(t, c, j) && key_of(t, j).len()
        > key_of(t, c).len() by {
        assert(in_subtree(t, cur, j));
        let c2 = lemma_subtree_step(t, cur, j);
        crate::bits::lemma_prefix_index(key_of(t, j), k);
        assert(branch_right(key_of(t, cur), key_of(t, j)) == branch_right(key_of(t, cur), k));
        assert(c2 == c);
        lemma_subtree_prefix(t, c, j);
        if key_of(t, j).len() <= key_of(t, c).len() {
            crate::bits::lemma_prefix_antisym(key_of(t, c), key_of(t, j));
            assert(reach(t, c)) by {
                lemma_reach_extend(t, cur, branch_right(key_of(t, cur), k), c);
            }
            assert(j == c);
        }
    }
    assert forall|j: int|
        0 <= j < t.len() && #[trigger] reach(t, j) && is_prefix_of(key_of(t, j), k) && key_of(
            t,
            j,
        ).len() > key_of(t, c).len() implies in_subtree(t, c, j) by {
        assert(key_of(t, c).len() > key_of(t, cur).len());
        assert(j != c);
    }
}

/// A covering walk that can descend no further has seen every covering key.
pub(crate) proof fn lemma_cover_stop<P: Prefix, T>(t: Seq<Node<P, T>>, k: Seq<bool>, cur: int)
    requires
        table_wf(t),
        0 <= cur < t.len(),
        is_strict_prefix_of(key_of(t, cur), k),
        covers_anc(t, cur, k),
        match child_of(t, cur, branch_right(key_of(t, cur), k)) {
            Some(c) => !is_prefix_of(key_of(t, c as int), k),
            None => true,
        },
    ensures
        forall|j: int|
            0 <= j < t.len() && #[trigger] reach(t, j) && is_prefix_of(key_of(t, j), k) ==> key_of(
                t,
                j,
            ).len() <= key_of(t, cur).len(),
{
    let s = branch_right(key_of(t, cur), k);
    assert forall|j: int|
        0 <= j < t.len() && #[trigger] reach(t, j) && is_prefix_of(key_of(t, j), k) implies key_of(
        t,
        j,
    ).len() <= key_of(t, cur).len() by {
        if key_of(t, j).len() > key_of(t, cur).len() {
            assert(in_subtree(t, cur, j));
            let c2 = lemma_subtree_step(t, cur, j);
            crate::bits::lemma_prefix_index(key_of(t, j), k);
            assert(branch_right(key_of(t, cur), key_of(t, j)) == s);
            assert(child_of(t, cur, s) == Some(c2 as usize));
            lemma_subtree_prefix(t, c2, j);
            crate::bits::lemma_prefix_trans(key_of(t, c2), key_of(t, j), k);
        }
    }
}

/// Two tables of equal shape: same slot count, links and prefixes; only the
/// stored values may differ.
pub(crate) open spec fn same_shape<P: Prefix, T>(t1: Seq<Node<P, T>>, t2: Seq<Node<P, T>>) -> bool {
    &&& t1.len() == t2.len()
    &&& forall|i: int|
        #![trigger t2[i]]
        0 <= i < t1.len() ==> {
            &&& t2[i].left == t1[i].left
            &&& t2[i].right == t1[i].right
            &&& key_of(t2, i) == key_of(t1, i)
        }
}

/// Equal shape carries the link structure across.
pub(crate) proof fn lemma_same_shape_links<P: Prefix, T>(t1: Seq<Node<P, T>>, t2: Seq<Node<P, T>>)
    requires
        same_shape(t1, t2),
        links_wf(t1),
        parent_unique(t1),
    ensures
        links_wf(t2),
        parent_unique(t2),
        forall|j: int, s: bool, c: int| #[trigger] is_link(t2, j, s, c) == is_link(t1, j, s, c),
{
    assert forall|j: int, s: bool, c: int| #[trigger] is_link(t2, j, s, c) == is_link(
        t1,
        j,
        s,
        c,
    ) by {
        if 0 <= j < t1.len() {
            assert(t2[j].left == t1[j].left && t2[j].right == t1[j].right);
        }
    }
}

/// Equal shape means equal reachability.
pub(crate) proof fn lemma_same_shape_reach<P: Prefix, T>(
    t1: Seq<Node<P, T>>,
    t2: Seq<Node<P, T>>,
    i: int,
)
    requires
        same_shape(t1, t2),
        links_wf(t1),
        parent_unique(t1),
        0 <= i < t1.len(),
    ensures
        reach(t2, i) == reach(t1, i),
    decreases key_of(t1, i).len(),
{
    lemma_same_shape_links(t1, t2);
    if i == 0 {
    } else if exists|j: int, s: bool| is_link(t1, j, s, i) {
        let (j1, s1) = choose|j: int, s: bool| is_link(t1, j, s, i);
        assert(is_link(t1, j1, s1, i));
        assert(is_link(t2, j1, s1, i));
        let (j2, s2) = choose|j: int, s: bool| is_link(t2, j, s, i);
        assert(is_link(t2, j2, s2, i));
        assert(is_link(t1, j2, s2, i));
        assert(j1 == j2);
        lemma_same_shape_reach(t1, t2, j1);
    } else {
        assert(!(exists|j: int, s: bool| is_link(t2, j, s, i)));
    }
}

/// Equal shape means equal subtrees.
pub(crate) proof fn lemma_same_shape_subtree<P: Prefix, T>(
    t1: Seq<Node<P, T>>,
    t2: Seq<Node<P, T>>,
    a: int,
    i: int,
)
    requires
        same_shape(t1, t2),
        links_wf(t1),
        parent_unique(t1),
        0 <= i < t1.len(),
    ensures
        in_subtree(t2, a, i) == in_subtree(t1, a, i),
    decreases key_of(t1, i).len(),
{
    lemma_same_shape_links(t1, t2);
    if i == a {
    } else if exists|j: int, s: bool| is_link(t1, j, s, i) {
        let (j1, s1) = choose|j: int, s: bool| is_link(t1, j, s, i);
        assert(is_link(t1, j1, s1, i));
        assert(is_link(t2, j1, s1, i));
        let (j2, s2) = choose|j: int, s: bool| is_link(t2, j, s, i);
        assert(is_link(t2, j2, s2, i));
        assert(is_link(t1, j2, s2, i));
        assert(j1 == j2);
        lemma_same_shape_subtree(t1, t2, a, j1);
    } else {
        assert(!(exists|j: int, s: bool| is_link(t2, j, s, i)));
    }
}

/// In a well-formed table the slot holding a given key is unique.
pub(crate) proof fn lemma_has_key_unique<P: Prefix, T>(t: Seq<Node<P, T>>, k: Seq<bool>) -> (i:
    int)
    requires
        table_wf(t),
        has_key(t, k),
    ensures
        0 <= i < t.len(),
        t[i].value is Some,
        key_of(t, i) == k,
        reach(t, i),
        i == idx_with_key(t, k),
        forall|j: int|
            0 <= j < t.len() && t[j].value is Some && key_of(t, j) == k ==> j == i,
        contents(t).contains_key(k),
        contents(t)[k] == t[i].value->0,
{
    let i = idx_with_key(t, k);
    assert(0 <= i < t.len() && t[i].value is Some && key_of(t, i) == k);
    assert(reach(t, i));
    assert forall|j: int|
        0 <= j < t.len() && t[j].value is Some && key_of(t, j) == k implies j == i by {
        assert(reach(t, j));
    }
    i
}

/// Changing nothing but the stored value of one reachable slot turns the
/// contents into the corresponding map update.
pub(crate) proof fn lemma_contents_value_update<P: Prefix, T>(
    t1: Seq<Node<P, T>>,
    t2: Seq<Node<P, T>>,
    cur: int,
)
    requires
        table_wf(t1),
        0 <= cur < t1.len(),
        reach(t1, cur),
        same_shape(t1, t2),
        forall|i: int| 0 <= i < t1.len() && i != cur ==> t2[i].value == #[trigger] t1[i].value,
    ensures
        table_wf(t2),
        t2[cur].value is Some ==> contents(t2) =~= contents(t1).insert(
            key_of(t1, cur),
            t2[cur].value->0,
        ),
        t2[cur].value is None ==> contents(t2) =~= contents(t1).remove(key_of(t1, cur)),
{
    lemma_same_shape_links(t1, t2);
    let k = key_of(t1, cur);
    assert(table_wf(t2)) by {
        assert(key_of(t2, 0) == key_of(t1, 0));
        assert forall|i: int| 0 <= i < t2.len() && t2[i].value is Some implies reach(t2, i) by {
            lemma_same_shape_reach(t1, t2, i);
            if i != cur {
                assert(t1[i].value is Some);
            }
        }
        assert forall|i: int, j: int|
            0 <= i < t2.len() && 0 <= j < t2.len() && #[trigger] reach(t2, i) && #[trigger] reach(
                t2,
                j,
            ) && i != j implies key_of(t2, i) != key_of(t2, j) by {
            lemma_same_shape_reach(t1, t2, i);
            lemma_same_shape_reach(t1, t2, j);
        }
    }
    assert forall|x: Seq<bool>| true implies #[trigger] contents(t2).contains_key(x)
        == (if t2[cur].value is Some {
        contents(t1).insert(k, t2[cur].value->0)
    } else {
        contents(t1).remove(k)
    }).contains_key(x) by {
        lemma_has_key_cases(t1, t2, cur, x);
    }
    assert forall|x: Seq<bool>|
        contents(t2).contains_key(x) implies #[trigger] contents(t2)[x] == (if t2[
        cur].value is Some {
        contents(t1).insert(k, t2[cur].value->0)
    } else {
        contents(t1).remove(k)
    })[x] by {
        let i2 = lemma_has_key_unique(t2, x);
        if x == k {
            assert(t2[cur].value is Some ==> i2 == cur);
            if t2[cur].value is None {
                assert(t1[i2].value is Some);
                lemma_same_shape_reach(t1, t2, i2);
                assert(reach(t1, i2) && reach(t1, cur));
                assert(i2 != cur ==> key_of(t1, i2) != key_of(t1, cur));
                assert(false);
            }
        } else {
            assert(i2 != cur);
            assert(t1[i2].value is Some);
            assert(has_key(t1, x));
            let i1 = lemma_has_key_unique(t1, x);
            assert(i1 == i2);
        }
    }
}

/// Helper: the domain of the contents after a value update at `cur`.
proof fn lemma_has_key_cases<P: Prefix, T>(
    t1: Seq<Node<P, T>>,
    t2: Seq<Node<P, T>>,
    cur: int,
    x: Seq<bool>,
)
    requires
        table_wf(t1),
        table_wf(t2),
        0 <= cur < t1.len(),
        reach(t1, cur),
        same_shape(t1, t2),
        forall|i: int| 0 <= i < t1.len() && i != cur ==> t2[i].value == #[trigger] t1[i].value,
    ensures
        x != key_of(t1, cur) ==> has_key(t2, x) == has_key(t1, x),
        x == key_of(t1, cur) ==> has_key(t2, x) == (t2[cur].value is Some),
{
    let k = key_of(t1, cur);
    if x != k {
        if has_key(t1, x) {
            let i = lemma_has_key_unique(t1, x);
            assert(i != cur);
            assert(t2[i].value is Some && key_of(t2, i) == x);
            assert(has_key(t2, x));
        }
        if has_key(t2, x) {
            let i = lemma_has_key_unique(t2, x);
            assert(i != cur);
            assert(t1[i].value is Some && key_of(t1, i) == x);
            assert(has_key(t1, x));
        }
    } else {
        if t2[cur].value is Some {
            assert(key_of(t2, cur) == x);
            assert(has_key(t2, x));
        } else {
            if has_key(t2, x) {
                let i = lemma_has_key_unique(t2, x);
                lemma_same_shape_reach(t1, t2, i);
                assert(reach(t1, i));
                assert(i != cur);
                assert(key_of(t1, i) != key_of(t1, cur));
                assert(false);
            }
        }
    }
}

/// Carrying reachability from a table to a grown or rewired one: whenever
/// every old link still leads somewhere reachable, old reachable slots stay
/// reachable.
pub(crate) proof fn lemma_reach_forward<P: Prefix, T>(
    t1: Seq<Node<P, T>>,
    t2: Seq<Node<P, T>>,
    i: int,
)
    requires
        links_wf(t1),
        links_wf(t2),
        1 <= t1.len() <= t2.len(),
        forall|n: int| 0 <= n < t1.len() ==> #[trigger] key_of(t2, n) == key_of(t1, n),
        forall|j: int, s: bool, c: int|
            #[trigger] is_link(t1, j, s, c) && reach(t2, j) ==> reach(t2, c),
        0 <= i < t1.len(),
        reach(t1, i),
    ensures
        reach(t2, i),
    decreases key_of(t1, i).len(),
{
    if i != 0 {
        let (j, s) = choose|j: int, s: bool| is_link(t1, j, s, i);
        assert(is_link(t1, j, s, i));
        lemma_reach_forward(t1, t2, j);
    }
}

/// The same, except across one detached slot `x` whose single child `ch` has
/// been reattached to `x`'s old parent `par`.
pub(crate) proof fn lemma_reach_forward_except<P: Prefix, T>(
    t1: Seq<Node<P, T>>,
    t2: Seq<Node<P, T>>,
    x: int,
    ch: int,
    par: int,
    sx: bool,
    i: int,
)
    requires
        links_wf(t1),
        links_wf(t2),
        parent_unique(t1),
        1 <= t1.len() <= t2.len(),
        forall|n: int| 0 <= n < t1.len() ==> #[trigger] key_of(t2, n) == key_of(t1, n),
        forall|j: int, s: bool, c: int|
            #[trigger] is_link(t1, j, s, c) && j != x && c != x && reach(t2, j) ==> reach(t2, c),
        forall|s: bool, c: int| #[trigger] is_link(t1, x, s, c) ==> c == ch,
        is_link(t1, par, sx, x),
        reach(t2, par) ==> reach(t2, ch),
        0 <= i < t1.len(),
        reach(t1, i),
        i != x,
    ensures
        reach(t2, i),
    decreases key_of(t1, i).len(),
{
    if i != 0 {
        let (j, s) = choose|j: int, s: bool| is_link(t1, j, s, i);
        assert(is_link(t1, j, s, i));
        if j == x {
            assert(i == ch);
            assert(reach(t1, x));
            let (j2, s2) = choose|j2: int, s2: bool| is_link(t1, j2, s2, x);
            assert(is_link(t1, j2, s2, x));
            assert(j2 == par && s2 == sx);
            assert(reach(t1, par));
            assert(par != x);
            lemma_reach_forward_except(t1, t2, x, ch, par, sx, par);
        } else {
            assert(reach(t1, j));
            lemma_reach_forward_except(t1, t2, x, ch, par, sx, j);
        }
    }
}

/// The reverse carry: whenever every new link aimed at an old slot either
/// existed before or has a target already reachable in the old table, new
/// reachability of old slots implies old reachability.
pub(crate) proof fn lemma_reach_reverse<P: Prefix, T>(
    t1: Seq<Node<P, T>>,
    t2: Seq<Node<P, T>>,
    i: int,
)
    requires
        links_wf(t1),
        links_wf(t2),
        parent_unique(t1),
        1 <= t1.len() <= t2.len(),
        forall|n: int| 0 <= n < t1.len() ==> #[trigger] key_of(t2, n) == key_of(t1, n),
        forall|j: int, s: bool, c: int|
            #[trigger] is_link(t2, j, s, c) && 0 <= c < t1.len() ==> is_link(t1, j, s, c) || reach(
                t1,
                c,
            ),
        0 <= i < t1.len(),
        reach(t2, i),
    ensures
        reach(t1, i),
    decreases key_of(t2, i).len(),
{
    if i != 0 {
        let (j, s) = choose|j: int, s: bool| is_link(t2, j, s, i);
        assert(is_link(t2, j, s, i));
        if is_link(t1, j, s, i) {
            assert(0 <= j < t1.len());
            assert(reach(t2, j));
            assert(key_of(t2, j).len() < key_of(t2, i).len());
            lemma_reach_reverse(t1, t2, j);
            lemma_reach_extend(t1, j, s, i);
        }
    }
}

/// Appending slots of which exactly one carries a value, under a key no old
/// valued slot carries, inserts that one binding into the contents.
pub(crate) proof fn lemma_contents_append<P: Prefix, T>(
    t1: Seq<Node<P, T>>,
    t2: Seq<Node<P, T>>,
    nnew: int,
)
    requires
        table_wf(t1),
        table_wf(t2),
        t1.len() <= nnew < t2.len(),
        forall|i: int|
            0 <= i < t1.len() ==> #[trigger] t2[i].value == t1[i].value && key_of(t2, i) == key_of(
                t1,
                i,
            ),
        forall|i: int| t1.len() <= i < t2.len() && i != nnew ==> #[trigger] t2[i].value is None,
        t2[nnew].value is Some,
        forall|i: int|
            0 <= i < t1.len() && #[trigger] t1[i].value is Some ==> key_of(t1, i) != key_of(
                t2,
                nnew,
            ),
    ensures
        contents(t2) =~= contents(t1).insert(key_of(t2, nnew), t2[nnew].value->0),
{
    let k = key_of(t2, nnew);
    assert forall|x: Seq<bool>| true implies #[trigger] has_key(t2, x) == (x == k || has_key(
        t1,
        x,
    )) by {
        if has_key(t2, x) {
            let i = lemma_has_key_unique(t2, x);
            if i < t1.len() {
                assert(t1[i].value is Some && key_of(t1, i) == x);
                assert(has_key(t1, x));
            } else {
                assert(i == nnew);
            }
        }
        if x == k {
            assert(key_of(t2, nnew) == x && t2[nnew].value is Some);
            assert(has_key(t2, x));
        }
        if has_key(t1, x) {
            let i = lemma_has_key_unique(t1, x);
            assert(t2[i].value is Some && key_of(t2, i) == x);
            assert(has_key(t2, x));
        }
    }
    assert forall|x: Seq<bool>| #[trigger] has_key(t2, x) implies contents(t2)[x] == contents(
        t1,
    ).insert(k, t2[nnew].value->0)[x] by {
        let i2 = lemma_has_key_unique(t2, x);
        if x == k {
            assert(i2 == nnew);
        } else {
            assert(i2 != nnew);
            assert(i2 < t1.len());
            assert(has_key(t1, x));
            let i1 = lemma_has_key_unique(t1, x);
            assert(t2[i1].value is Some && key_of(t2, i1) == x);
            assert(i1 == i2);
        }
    }
}

/// Grafting one fresh leaf below `cur` on a vacant side preserves
/// well-formedness; the new slot is reachable, old slots keep their
/// reachability.
pub(crate) proof fn lemma_graft_leaf<P: Prefix, T>(
    t1: Seq<Node<P, T>>,
    t2: Seq<Node<P, T>>,
    cur: int,
    s0: bool,
)
    requires
        table_wf(t1),
        0 <= cur < t1.len(),
        reach(t1, cur),
        t2.len() == t1.len() as int + 1,
        forall|i: int| 0 <= i < t1.len() && i != cur ==> #[trigger] t2[i] == t1[i],
        key_of(t2, cur) == key_of(t1, cur),
        t2[cur].value == t1[cur].value,
        is_link(t2, cur, s0, t1.len() as int),
        child_of(t2, cur, !s0) == child_of(t1, cur, !s0),
        child_of(t1, cur, s0) is None,
        t2[t1.len() as int].left is None,
        t2[t1.len() as int].right is None,
        is_strict_prefix_of(key_of(t1, cur), key_of(t2, t1.len() as int)),
        branch_right(key_of(t1, cur), key_of(t2, t1.len() as int)) == s0,
        forall|j: int|
            0 <= j < t1.len() && #[trigger] reach(t1, j) ==> key_of(t1, j) != key_of(
                t2,
                t1.len() as int,
            ),
    ensures
        table_wf(t2),
        reach(t2, t1.len() as int),
        forall|i: int| 0 <= i < t1.len() ==> #[trigger] reach(t2, i) == reach(t1, i),
{
    let nnew = t1.len() as int;
    assert forall|j: int, s: bool, c: int| true implies #[trigger] is_link(t2, j, s, c) == (
    is_link(t1, j, s, c) || (j == cur && s == s0 && c == nnew)) by {
        if 0 <= j < t1.len() && j != cur {
            assert(t2[j] == t1[j]);
        }
    }
    assert(links_wf(t2)) by {
        assert forall|j: int, s: bool, c: int| #[trigger] is_link(t2, j, s, c) implies {
            &&& 0 < c < t2.len()
            &&& is_strict_prefix_of(key_of(t2, j), key_of(t2, c))
            &&& branch_right(key_of(t2, j), key_of(t2, c)) == s
        } by {
            if is_link(t1, j, s, c) {
                assert(0 < c < t1.len());
            }
        }
    }
    assert(parent_unique(t2)) by {
        assert forall|i1: int, s1: bool, i2: int, s2: bool, c: int|
            #[trigger] is_link(t2, i1, s1, c) && #[trigger] is_link(t2, i2, s2, c) implies i1 == i2
            && s1 == s2 by {
            if c != nnew {
                assert(is_link(t1, i1, s1, c) && is_link(t1, i2, s2, c));
            } else {
                assert(!is_link(t1, i1, s1, c) && !is_link(t1, i2, s2, c));
            }
        }
    }
    assert forall|i: int| 0 <= i < t1.len() && #[trigger] reach(t1, i) implies reach(t2, i) by {
        assert forall|j: int, s: bool, c: int|
            #[trigger] is_link(t1, j, s, c) && reach(t2, j) implies reach(t2, c) by {
            lemma_reach_extend(t2, j, s, c);
        }
        lemma_reach_forward(t1, t2, i);
    }
    assert(reach(t2, nnew)) by {
        lemma_reach_extend(t2, cur, s0, nnew);
    }
    assert forall|i: int| 0 <= i < t1.len() && #[trigger] reach(t2, i) implies reach(t1, i) by {
        assert forall|j: int, s: bool, c: int|
            #[trigger] is_link(t2, j, s, c) && 0 <= c < t1.len() implies is_link(t1, j, s, c)
            || reach(t1, c) by {
            assert(c != nnew);
        }
        lemma_reach_reverse(t1, t2, i);
    }
    assert(table_wf(t2)) by {
        assert(key_of(t2, 0) == key_of(t1, 0));
        assert forall|i: int| 0 <= i < t2.len() && t2[i].value is Some implies reach(t2, i) by {
            if i < t1.len() {
                assert(t1[i].value is Some) by {
                    if i != cur {
                        assert(t2[i] == t1[i]);
                    }
                }
                assert(reach(t1, i));
            }
        }
        assert forall|i: int, j: int|
            0 <= i < t2.len() && 0 <= j < t2.len() && #[trigger] reach(t2, i) && #[trigger] reach(
                t2,
                j,
            ) && i != j implies key_of(t2, i) != key_of(t2, j) by {
            if i < t1.len() && j < t1.len() {
                assert(reach(t1, i) && reach(t1, j));
                assert(key_of(t2, i) == key_of(t1, i) && key_of(t2, j) == key_of(t1, j)) by {
                    if i != cur {
                        assert(t2[i] == t1[i]);
                    }
                    if j != cur {
                        assert(t2[j] == t1[j]);
                    }
                }
            } else if i == nnew {
                assert(reach(t1, j) && key_of(t2, j) == key_of(t1, j)) by {
                    if j != cur {
                        assert(t2[j] == t1[j]);
                    }
                }
            } else {
                assert(j == nnew);
                assert(reach(t1, i) && key_of(t2, i) == key_of(t1, i)) by {
                    if i != cur {
                        assert(t2[i] == t1[i]);
                    }
                }
            }
        }
    }
}

/// Grafting a fresh node between `cur` and its old child `cold` (the new
/// node's key contains the old child's) preserves well-formedness.
pub(crate) proof fn lemma_graft_child<P: Prefix, T>(
    t1: Seq<Node<P, T>>,
    t2: Seq<Node<P, T>>,
    cur: int,
    s0: bool,
    s1: bool,
    cold: int,
)
    requires
        table_wf(t1),
        0 <= cur < t1.len(),
        reach(t1, cur),
        t2.len() == t1.len() as int + 1,
        forall|i: int| 0 <= i < t1.len() && i != cur ==> #[trigger] t2[i] == t1[i],
        key_of(t2, cur) == key_of(t1, cur),
        t2[cur].value == t1[cur].value,
        is_link(t1, cur, s0, cold),
        is_link(t2, cur, s0, t1.len() as int),
        child_of(t2, cur, !s0) == child_of(t1, cur, !s0),
        is_link(t2, t1.len() as int, s1, cold),
        child_of(t2, t1.len() as int, !s1) is None,
        is_strict_prefix_of(key_of(t1, cur), key_of(t2, t1.len() as int)),
        branch_right(key_of(t1, cur), key_of(t2, t1.len() as int)) == s0,
        is_strict_prefix_of(key_of(t2, t1.len() as int), key_of(t1, cold)),
        branch_right(key_of(t2, t1.len() as int), key_of(t1, cold)) == s1,
        forall|j: int|
            0 <= j < t1.len() && #[trigger] reach(t1, j) ==> key_of(t1, j) != key_of(
                t2,
                t1.len() as int,
            ),
    ensures
        table_wf(t2),
        reach(t2, t1.len() as int),
        forall|i: int| 0 <= i < t1.len() ==> #[trigger] reach(t2, i) == reach(t1, i),
{
    let nnew = t1.len() as int;
    assert(0 < cold < t1.len() && cold != cur);
    assert forall|j: int, s: bool, c: int| true implies #[trigger] is_link(t2, j, s, c) == ((
    is_link(t1, j, s, c) && !(j == cur && s == s0)) || (j == cur && s == s0 && c == nnew) || (j
        == nnew && s == s1 && c == cold)) by {
        if 0 <= j < t1.len() && j != cur {
            assert(t2[j] == t1[j]);
        }
    }
    assert(key_of(t2, cold) == key_of(t1, cold));
    assert(links_wf(t2)) by {
        assert forall|j: int, s: bool, c: int| #[trigger] is_link(t2, j, s, c) implies {
            &&& 0 < c < t2.len()
            &&& is_strict_prefix_of(key_of(t2, j), key_of(t2, c))
            &&& branch_right(key_of(t2, j), key_of(t2, c)) == s
        } by {
            if is_link(t1, j, s, c) && !(j == cur && s == s0) {
                assert(0 < c < t1.len());
            }
        }
    }
    assert(parent_unique(t2)) by {
        assert forall|i1: int, s1x: bool, i2: int, s2x: bool, c: int|
            #[trigger] is_link(t2, i1, s1x, c) && #[trigger] is_link(t2, i2, s2x, c) implies i1
            == i2 && s1x == s2x by {
            if c != nnew && c != cold {
                assert(is_link(t1, i1, s1x, c) && is_link(t1, i2, s2x, c));
            } else if c == cold {
                if is_link(t1, i1, s1x, c) && !(i1 == cur && s1x == s0) {
                    assert(is_link(t1, cur, s0, c));
                    assert(false);
                }
                if is_link(t1, i2, s2x, c) && !(i2 == cur && s2x == s0) {
                    assert(is_link(t1, cur, s0, c));
                    assert(false);
                }
            }
        }
    }
    assert forall|i: int| 0 <= i < t1.len() && #[trigger] reach(t1, i) implies reach(t2, i) by {
        assert forall|j: int, s: bool, c: int|
            #[trigger] is_link(t1, j, s, c) && reach(t2, j) implies reach(t2, c) by {
            if j == cur && s == s0 {
                assert(c == cold);
                lemma_reach_extend(t2, cur, s0, nnew);
                lemma_reach_extend(t2, nnew, s1, cold);
            } else {
                lemma_reach_extend(t2, j, s, c);
            }
        }
        lemma_reach_forward(t1, t2, i);
    }
    assert(reach(t2, nnew)) by {
        lemma_reach_extend(t2, cur, s0, nnew);
    }
    assert forall|i: int| 0 <= i < t1.len() && #[trigger] reach(t2, i) implies reach(t1, i) by {
        assert forall|j: int, s: bool, c: int|
            #[trigger] is_link(t2, j, s, c) && 0 <= c < t1.len() implies is_link(t1, j, s, c)
            || reach(t1, c) by {
            if j == nnew && s == s1 && c == cold {
                lemma_reach_extend(t1, cur, s0, cold);
            }
        }
        lemma_reach_reverse(t1, t2, i);
    }
    assert(table_wf(t2)) by {
        assert(key_of(t2, 0) == key_of(t1, 0)) by {
            if cur != 0 {
                assert(t2[0] == t1[0]);
            }
        }
        assert forall|i: int| 0 <= i < t2.len() && t2[i].value is Some implies reach(t2, i) by {
            if i < t1.len() {
                assert(t1[i].value is Some) by {
                    if i != cur {
                        assert(t2[i] == t1[i]);
                    }
                }
                assert(reach(t1, i));
            }
        }
        assert forall|i: int, j: int|
            0 <= i < t2.len() && 0 <= j < t2.len() && #[trigger] reach(t2, i) && #[trigger] reach(
                t2,
                j,
            ) && i != j implies key_of(t2, i) != key_of(t2, j) by {
            if i < t1.len() {
                assert(key_of(t2, i) == key_of(t1, i)) by {
                    if i != cur {
                        assert(t2[i] == t1[i]);
                    }
                }
            }
            if j < t1.len() {
                assert(key_of(t2, j) == key_of(t1, j)) by {
                    if j != cur {
                        assert(t2[j] == t1[j]);
                    }
                }
            }
        }
    }
}

/// Grafting a fresh branching slot between `cur` and its old child `cold`,
/// with a fresh valued slot on the branching slot's other side, preserves
/// well-formedness.
pub(crate) proof fn lemma_graft_branch<P: Prefix, T>(
    t1: Seq<Node<P, T>>,
    t2: Seq<Node<P, T>>,
    cur: int,
    s0: bool,
    s1: bool,
    cold: int,
    nb: int,
    nnew: int,
)
    requires
        table_wf(t1),
        0 <= cur < t1.len(),
        reach(t1, cur),
        t2.len() == t1.len() + 2,
        t1.len() <= nb < t2.len(),
        t1.len() <= nnew < t2.len(),
        nb != nnew,
        forall|i: int| 0 <= i < t1.len() && i != cur ==> #[trigger] t2[i] == t1[i],
        key_of(t2, cur) == key_of(t1, cur),
        t2[cur].value == t1[cur].value,
        is_link(t1, cur, s0, cold),
        is_link(t2, cur, s0, nb),
        child_of(t2, cur, !s0) == child_of(t1, cur, !s0),
        t2[nb].value is None,
        is_link(t2, nb, s1, nnew),
        is_link(t2, nb, !s1, cold),
        t2[nnew].left is None,
        t2[nnew].right is None,
        is_strict_prefix_of(key_of(t1, cur), key_of(t2, nb)),
        branch_right(key_of(t1, cur), key_of(t2, nb)) == s0,
        is_strict_prefix_of(key_of(t2, nb), key_of(t2, nnew)),
        branch_right(key_of(t2, nb), key_of(t2, nnew)) == s1,
        is_strict_prefix_of(key_of(t2, nb), key_of(t1, cold)),
        branch_right(key_of(t2, nb), key_of(t1, cold)) == !s1,
        forall|j: int|
            0 <= j < t1.len() && #[trigger] reach(t1, j) ==> key_of(t1, j) != key_of(
                t2,
                nnew,
            ) && key_of(t1, j) != key_of(t2, nb),
    ensures
        table_wf(t2),
        reach(t2, nnew),
        forall|i: int| 0 <= i < t1.len() ==> #[trigger] reach(t2, i) == reach(t1, i),
{
    assert(0 < cold < t1.len() && cold != cur);
    assert forall|j: int, s: bool, c: int| true implies #[trigger] is_link(t2, j, s, c) == ((
    is_link(t1, j, s, c) && !(j == cur && s == s0)) || (j == cur && s == s0 && c == nb) || (j == nb
        && s == s1 && c == nnew) || (j == nb && s == !s1 && c == cold)) by {
        if 0 <= j < t1.len() && j != cur {
            assert(t2[j] == t1[j]);
        }
    }
    assert(key_of(t2, cold) == key_of(t1, cold));
    assert(links_wf(t2)) by {
        assert forall|j: int, s: bool, c: int| #[trigger] is_link(t2, j, s, c) implies {
            &&& 0 < c < t2.len()
            &&& is_strict_prefix_of(key_of(t2, j), key_of(t2, c))
            &&& branch_right(key_of(t2, j), key_of(t2, c)) == s
        } by {
            if is_link(t1, j, s, c) && !(j == cur && s == s0) {
                assert(0 < c < t1.len());
            }
        }
    }
    assert(parent_unique(t2)) by {
        assert forall|i1: int, s1x: bool, i2: int, s2x: bool, c: int|
            #[trigger] is_link(t2, i1, s1x, c) && #[trigger] is_link(t2, i2, s2x, c) implies i1
            == i2 && s1x == s2x by {
            if c != nb && c != nnew && c != cold {
                assert(is_link(t1, i1, s1x, c) && is_link(t1, i2, s2x, c));
            } else if c == cold {
                if is_link(t1, i1, s1x, c) && !(i1 == cur && s1x == s0) {
                    assert(is_link(t1, cur, s0, c));
                    assert(false);
                }
                if is_link(t1, i2, s2x, c) && !(i2 == cur && s2x == s0) {
                    assert(is_link(t1, cur, s0, c));
                    assert(false);
                }
            }
        }
    }
    assert forall|i: int| 0 <= i < t1.len() && #[trigger] reach(t1, i) implies reach(t2, i) by {
        assert forall|j: int, s: bool, c: int|
            #[trigger] is_link(t1, j, s, c) && reach(t2, j) implies reach(t2, c) by {
            if j == cur && s == s0 {
                assert(c == cold);
                lemma_reach_extend(t2, cur, s0, nb);
                lemma_reach_extend(t2, nb, !s1, cold);
            } else {
                lemma_reach_extend(t2, j, s, c);
            }
        }
        lemma_reach_forward(t1, t2, i);
    }
    assert(reach(t2, nb)) by {
        lemma_reach_extend(t2, cur, s0, nb);
    }
    assert(reach(t2, nnew)) by {
        lemma_reach_extend(t2, nb, s1, nnew);
    }
    assert forall|i: int| 0 <= i < t1.len() && #[trigger] reach(t2, i) implies reach(t1, i) by {
        assert forall|j: int, s: bool, c: int|
            #[trigger] is_link(t2, j, s, c) && 0 <= c < t1.len() implies is_link(t1, j, s, c)
            || reach(t1, c) by {
            if j == nb && s == !s1 && c == cold {
                lemma_reach_extend(t1, cur, s0, cold);
            }
        }
        lemma_reach_reverse(t1, t2, i);
    }
    assert(table_wf(t2)) by {
        assert(key_of(t2, 0) == key_of(t1, 0)) by {
            if cur != 0 {
                assert(t2[0] == t1[0]);
            }
        }
        assert forall|i: int| 0 <= i < t2.len() && t2[i].value is Some implies reach(t2, i) by {
            if i < t1.len() {
                assert(t1[i].value is Some) by {
                    if i != cur {
                        assert(t2[i] == t1[i]);
                    }
                }
                assert(reach(t1, i));
            }
        }
        assert forall|i: int, j: int|
            0 <= i < t2.len() && 0 <= j < t2.len() && #[trigger] reach(t2, i) && #[trigger] reach(
                t2,
                j,
            ) && i != j implies key_of(t2, i) != key_of(t2, j) by {
            if i < t1.len() {
                assert(key_of(t2, i) == key_of(t1, i)) by {
                    if i != cur {
                        assert(t2[i] == t1[i]);
                    }
                }
            }
            if j < t1.len() {
                assert(key_of(t2, j) == key_of(t1, j)) by {
                    if j != cur {
                        assert(t2[j] == t1[j]);
                    }
                }
            }
            assert(key_of(t2, nb).len() < key_of(t2, nnew).len());
        }
    }
}

/// Tables with pointwise equal keys and values have equal contents, whatever
/// their links.
pub(crate) proof fn lemma_contents_same_values<P: Prefix, T>(
    t1: Seq<Node<P, T>>,
    t2: Seq<Node<P, T>>,
)
    requires
        t1.len() == t2.len(),
        forall|i: int|
            0 <= i < t1.len() ==> #[trigger] t2[i].value == t1[i].value && key_of(t2, i) == key_of(
                t1,
                i,
            ),
        table_wf(t1),
        table_wf(t2),
    ensures
        contents(t2) =~= contents(t1),
{
    assert forall|x: Seq<bool>| true implies #[trigger] has_key(t2, x) == has_key(t1, x) by {
        if has_key(t1, x) {
            let i = lemma_has_key_unique(t1, x);
            assert(t2[i].value is Some && key_of(t2, i) == x);
        }
        if has_key(t2, x) {
            let i = lemma_has_key_unique(t2, x);
            assert(t1[i].value is Some && key_of(t1, i) == x);
        }
    }
    assert forall|x: Seq<bool>| #[trigger] has_key(t2, x) implies contents(t2)[x] == contents(
        t1,
    )[x] by {
        let i2 = lemma_has_key_unique(t2, x);
        let i1 = lemma_has_key_unique(t1, x);
        assert(t1[i2].value is Some && key_of(t1, i2) == x);
        assert(i1 == i2);
    }
}

/// Splicing an unvalued slot `x` out of the tree: its parent `p` adopts `x`'s
/// single child `c` (when `has_child`), or simply drops the link.  Keys and
/// values are untouched, so the contents are untouched; well-formedness is
/// preserved, and every other slot keeps its reachability.
pub(crate) proof fn lemma_splice<P: Prefix, T>(
    t1: Seq<Node<P, T>>,
    t2: Seq<Node<P, T>>,
    p: int,
    sx: bool,
    x: int,
    has_child: bool,
    sc: bool,
    c: int,
)
    requires
        table_wf(t1),
        reach(t1, p),
        is_link(t1, p, sx, x),
        t1[x].value is None,
        t2.len() == t1.len(),
        forall|i: int|
            0 <= i < t1.len() ==> #[trigger] t2[i].value == t1[i].value && key_of(t2, i) == key_of(
                t1,
                i,
            ),
        forall|i: int| 0 <= i < t1.len() && i != p && i != x ==> #[trigger] t2[i] == t1[i],
        child_of(t2, p, !sx) == child_of(t1, p, !sx),
        t2[x].left is None,
        t2[x].right is None,
        has_child ==> is_link(t1, x, sc, c) && child_of(t1, x, !sc) is None && is_link(
            t2,
            p,
            sx,
            c,
        ),
        !has_child ==> t1[x].left is None && t1[x].right is None && child_of(t2, p, sx) is None,
    ensures
        table_wf(t2),
        contents(t2) =~= contents(t1),
        forall|i: int|
            0 <= i < t1.len() && i != x ==> #[trigger] reach(t2, i) == reach(t1, i),
        !reach(t2, x),
        forall|j: int, s: bool, i: int|
            #[trigger] is_link(t1, j, s, i) && j != p && j != x ==> is_link(t2, j, s, i),
{
    assert(0 < x < t1.len() && x != p);
    assert forall|n: int| 0 <= n < t1.len() implies #[trigger] key_of(t2, n) == key_of(t1, n) by {
        assert(t2[n].value == t1[n].value && key_of(t2, n) == key_of(t1, n));
    }
    assert forall|j: int, s: bool, c2: int| true implies #[trigger] is_link(t2, j, s, c2) == ((
    is_link(t1, j, s, c2) && !(j == p && s == sx) && j != x) || (has_child && j == p && s == sx
        && c2 == c)) by {
        if 0 <= j < t1.len() && j != p && j != x {
            assert(t2[j] == t1[j]);
        }
        if !has_child && 0 <= j < t1.len() && j == x {
            assert(t1[x].left is None && t1[x].right is None);
        }
    }
    assert(links_wf(t2)) by {
        assert forall|j: int, s: bool, c2: int| #[trigger] is_link(t2, j, s, c2) implies {
            &&& 0 < c2 < t2.len()
            &&& is_strict_prefix_of(key_of(t2, j), key_of(t2, c2))
            &&& branch_right(key_of(t2, j), key_of(t2, c2)) == s
        } by {
            if has_child && j == p && s == sx && c2 == c {
                assert(is_strict_prefix_of(key_of(t1, p), key_of(t1, x)));
                assert(is_strict_prefix_of(key_of(t1, x), key_of(t1, c)));
                crate::bits::lemma_prefix_trans(key_of(t1, p), key_of(t1, x), key_of(t1, c));
                crate::bits::lemma_prefix_index(key_of(t1, x), key_of(t1, c));
            }
        }
    }
    assert(parent_unique(t2)) by {
        assert forall|i1: int, s1: bool, i2: int, s2: bool, c2: int|
            #[trigger] is_link(t2, i1, s1, c2) && #[trigger] is_link(t2, i2, s2, c2) implies i1
            == i2 && s1 == s2 by {
            if has_child && c2 == c {
                if is_link(t1, i1, s1, c2) && !(i1 == p && s1 == sx) && i1 != x {
                    assert(is_link(t1, x, sc, c2));
                    assert(false);
                }
                if is_link(t1, i2, s2, c2) && !(i2 == p && s2 == sx) && i2 != x {
                    assert(is_link(t1, x, sc, c2));
                    assert(false);
                }
            }
        }
    }
    assert forall|i: int|
        0 <= i < t1.len() && i != x && #[trigger] reach(t1, i) implies reach(t2, i) by {
        assert forall|j: int, s: bool, c2: int|
            #[trigger] is_link(t1, j, s, c2) && j != x && c2 != x && reach(t2, j) implies reach(
            t2,
            c2,
        ) by {
            if j == p && s == sx {
                assert(c2 == x);
            } else {
                lemma_reach_extend(t2, j, s, c2);
            }
        }
        if has_child {
            assert(reach(t2, p) ==> reach(t2, c)) by {
                if reach(t2, p) {
                    lemma_reach_extend(t2, p, sx, c);
                }
            }
            lemma_reach_forward_except(t1, t2, x, c, p, sx, i);
        } else {
            assert(reach(t2, p) ==> reach(t2, 0));
            assert forall|s: bool, c2: int| #[trigger] is_link(t1, x, s, c2) implies c2 == 0 by {
                assert(child_of(t1, x, s) is None);
            }
            lemma_reach_forward_except(t1, t2, x, 0, p, sx, i);
        }
    }
    assert(!reach(t2, x)) by {
        if reach(t2, x) {
            assert(x != 0);
            assert(!(exists|j: int, s: bool| is_link(t2, j, s, x)));
        }
    }
    assert forall|i: int|
        0 <= i < t1.len() && i != x && #[trigger] reach(t2, i) implies reach(t1, i) by {
        assert forall|j: int, s: bool, c2: int|
            #[trigger] is_link(t2, j, s, c2) && 0 <= c2 < t1.len() implies is_link(t1, j, s, c2)
            || reach(t1, c2) by {
            if has_child && j == p && s == sx && c2 == c {
                assert(reach(t1, x)) by {
                    lemma_reach_extend(t1, p, sx, x);
                }
                lemma_reach_extend(t1, x, sc, c);
            }
        }
        lemma_reach_reverse(t1, t2, i);
    }
    assert(table_wf(t2)) by {
        assert(key_of(t2, 0) == key_of(t1, 0));
        assert forall|i: int| 0 <= i < t2.len() && t2[i].value is Some implies reach(t2, i) by {
            assert(t1[i].value is Some);
            assert(i != x);
            assert(reach(t1, i));
        }
        assert forall|i: int, j: int|
            0 <= i < t2.len() && 0 <= j < t2.len() && #[trigger] reach(t2, i) && #[trigger] reach(
                t2,
                j,
            ) && i != j implies key_of(t2, i) != key_of(t2, j) by {
            assert(i != x && j != x);
            assert(reach(t1, i) && reach(t1, j));
        }
    }
    lemma_contents_same_values(t1, t2);
}

/// Two reachable slots with nested keys are ancestor and descendant: the
/// trie stores each key region in one place.
pub(crate) proof fn lemma_reachable_ordered<P: Prefix, T>(t: Seq<Node<P, T>>, i: int, j: int)
    requires
        table_wf(t),
        0 <= i < t.len(),
        0 <= j < t.len(),
        reach(t, i),
        reach(t, j),
        is_prefix_of(key_of(t, i), key_of(t, j)),
    ensures
        in_subtree(t, i, j),
    decreases key_of(t, j).len(),
{
    if i == j {
    } else if key_of(t, i) == key_of(t, j) {
        assert(i == j);
    } else {
        crate::bits::lemma_proper_prefix_shorter(key_of(t, i), key_of(t, j));
        assert(j != 0) by {
            if j == 0 {
                assert(key_of(t, j).len() == 0);
            }
        }
        lemma_reach_is_root_subtree(t, j);
        assert(in_subtree(t, 0, j));
        let (pj, s) = choose|pj: int, s: bool| is_link(t, pj, s, j);
        assert(is_link(t, pj, s, j));
        assert(reach(t, pj)) by {
            assert(reach(t, j));
        }
        crate::bits::lemma_prefix_index(key_of(t, i), key_of(t, j));
        crate::bits::lemma_prefix_index(key_of(t, pj), key_of(t, j));
        if key_of(t, i).len() <= key_of(t, pj).len() {
            crate::bits::lemma_prefix_linear(key_of(t, i), key_of(t, pj), key_of(t, j));
            lemma_reachable_ordered(t, i, pj);
            lemma_subtree_extend(t, i, pj, s, j);
        } else {
            // the parent's key sits strictly inside ours: walking up from our
            // own slot must pass through the link to j, so we sit below j,
            // contradicting the strictly shorter key
            crate::bits::lemma_prefix_linear(key_of(t, pj), key_of(t, i), key_of(t, j));
            lemma_reachable_ordered(t, pj, i);
            assert(i != pj);
            let c = lemma_subtree_step(t, pj, i);
            assert(branch_right(key_of(t, pj), key_of(t, i)) == branch_right(
                key_of(t, pj),
                key_of(t, j),
            ));
            assert(c == j);
            lemma_subtree_prefix(t, j, i);
            assert(key_of(t, j).len() <= key_of(t, i).len());
            assert(false);
        }
    }
}

/// How to reach an existing prefix from a node.
pub(crate) enum Direction {
    /// The prefix is already reached.
    Reached,
    /// Enter the next index and search again.
    Enter { next: usize, right: bool },
    /// The node was not found.
    Missing,
}

/// How to insert a prefix below a node.
pub(crate) enum DirectionForInsert<P> {
    /// The prefix is already reached.
    Reached,
    /// Enter the next index and search again.
    Enter { next: usize, right: bool },
    /// Insert the new node as a leaf on side `right`.
    NewLeaf { right: bool },
    /// Insert the new node on side `right`, moving the old child below it on
    /// side `child_right`.
    NewChild { right: bool, child_right: bool },
    /// Insert a fresh branching node with prefix `branch_prefix` on side
    /// `right`; the new node goes below it on side `prefix_right` and the old
    /// child on the opposite side.
    NewBranch { branch_prefix: P, right: bool, prefix_right: bool },
}

impl<P: Prefix, T> Table<P, T> {
    pub(crate) open spec fn view_nodes(&self) -> Seq<Node<P, T>> {
        self.nodes@
    }

    /// Get the child of a node, either to the left or the right.
    pub(crate) fn get_child(&self, idx: usize, right: bool) -> (r: Option<usize>)
        requires
            idx < self.view_nodes().len(),
        ensures
            r == child_of(self.view_nodes(), idx as int, right),
    {
        if right {
            self.nodes[idx].right
        } else {
            self.nodes[idx].left
        }
    }

    /// Set the child of a node on one side, returning the old child there.
    /// Touches nothing but that one link.
    pub(crate) fn set_child(&mut self, idx: usize, child: usize, right: bool) -> (r: Option<
        usize,
    >)
        requires
            idx < old(self).view_nodes().len(),
        ensures
            r == child_of(old(self).view_nodes(), idx as int, right),
            final(self).view_nodes().len() == old(self).view_nodes().len(),
            child_of(final(self).view_nodes(), idx as int, right) == Some(child),
            child_of(final(self).view_nodes(), idx as int, !right) == child_of(
                old(self).view_nodes(),
                idx as int,
                !right,
            ),
            final(self).view_nodes()[idx as int].prefix == old(self).view_nodes()[
                idx as int].prefix,
            final(self).view_nodes()[idx as int].value == old(self).view_nodes()[idx as int].value,
            forall|n: int|
                0 <= n < old(self).view_nodes().len() && n != idx ==> final(self).view_nodes()[n]
                    == old(self).view_nodes()[n],
    {
        let node = &mut self.nodes[idx];
        if right {
            let r = node.right;
            node.right = Some(child);
            r
        } else {
            let r = node.left;
            node.left = Some(child);
            r
        }
    }

    /// Remove the child link of a node on one side, returning the old child.
    pub(crate) fn clear_child(&mut self, idx: usize, right: bool) -> (r: Option<usize>)
        requires
            idx < old(self).view_nodes().len(),
        ensures
            r == child_of(old(self).view_nodes(), idx as int, right),
            final(self).view_nodes().len() == old(self).view_nodes().len(),
            child_of(final(self).view_nodes(), idx as int, right) is None,
            child_of(final(self).view_nodes(), idx as int, !right) == child_of(
                old(self).view_nodes(),
                idx as int,
                !right,
            ),
            final(self).view_nodes()[idx as int].prefix == old(self).view_nodes()[
                idx as int].prefix,
            final(self).view_nodes()[idx as int].value == old(self).view_nodes()[idx as int].value,
            forall|n: int|
                0 <= n < old(self).view_nodes().len() && n != idx ==> final(self).view_nodes()[n]
                    == old(self).view_nodes()[n],
    {
        let node = &mut self.nodes[idx];
        if right {
            let r = node.right;
            node.right = None;
            r
        } else {
            let r = node.left;
            node.left = None;
            r
        }
    }

    /// The directions from node `cur` towards an existing `prefix`.
    pub(crate) fn get_direction(&self, cur: usize, prefix: &P) -> (r: Direction)
        requires
            links_wf(self.view_nodes()),
            cur < self.view_nodes().len(),
            is_prefix_of(key_of(self.view_nodes(), cur as int), prefix.bits()),
        ensures
            ({
                let t = self.view_nodes();
                let ck = key_of(t, cur as int);
                match r {
                    Direction::Reached => ck == prefix.bits(),
                    Direction::Enter { next, right } => {
                        &&& ck != prefix.bits()
                        &&& right == branch_right(ck, prefix.bits())
                        &&& is_link(t, cur as int, right, next as int)
                        &&& is_prefix_of(key_of(t, next as int), prefix.bits())
                    },
                    Direction::Missing => {
                        &&& ck != prefix.bits()
                        &&& match child_of(t, cur as int, branch_right(ck, prefix.bits())) {
                            Some(c) => !is_prefix_of(key_of(t, c as int), prefix.bits()),
                            None => true,
                        }
                    },
                }
            }),
    {
        let cur_p = &self.nodes[cur].prefix;
        if cur_p.eq(prefix) {
            Direction::Reached
        } else {
            proof {
                lemma_proper_prefix_shorter(
                    key_of(self.view_nodes(), cur as int),
                    prefix.bits(),
                );
            }
            let right = to_right(cur_p, prefix);
            match self.get_child(cur, right) {
                Some(child) => {
                    proof {
                        assert(is_link(self.view_nodes(), cur as int, right, child as int));
                    }
                    if self.nodes[child].prefix.contains(prefix) {
                        Direction::Enter { next: child, right }
                    } else {
                        Direction::Missing
                    }
                },
                None => Direction::Missing,
            }
        }
    }

    /// The directions from node `cur` for inserting `prefix` below it.
    pub(crate) fn get_direction_for_insert(&self, cur: usize, prefix: &P) -> (r:
        DirectionForInsert<P>)
        requires
            links_wf(self.view_nodes()),
            cur < self.view_nodes().len(),
            is_prefix_of(key_of(self.view_nodes(), cur as int), prefix.bits()),
        ensures
            ({
                let t = self.view_nodes();
                let ck = key_of(t, cur as int);
                let pk = prefix.bits();
                match r {
                    DirectionForInsert::Reached => ck == pk,
                    DirectionForInsert::Enter { next, right } => {
                        &&& ck != pk
                        &&& right == branch_right(ck, pk)
                        &&& is_link(t, cur as int, right, next as int)
                        &&& is_prefix_of(key_of(t, next as int), pk)
                    },
                    DirectionForInsert::NewLeaf { right } => {
                        &&& ck != pk
                        &&& right == branch_right(ck, pk)
                        &&& child_of(t, cur as int, right) is None
                    },
                    DirectionForInsert::NewChild { right, child_right } => {
                        let c = child_of(t, cur as int, right)->0 as int;
                        &&& ck != pk
                        &&& right == branch_right(ck, pk)
                        &&& child_of(t, cur as int, right) is Some
                        &&& is_strict_prefix_of(pk, key_of(t, c))
                        &&& child_right == branch_right(pk, key_of(t, c))
                    },
                    DirectionForInsert::NewBranch { branch_prefix, right, prefix_right } => {
                        let c = child_of(t, cur as int, right)->0 as int;
                        let bk = branch_prefix.bits();
                        &&& ck != pk
                        &&& right == branch_right(ck, pk)
                        &&& child_of(t, cur as int, right) is Some
                        &&& !is_prefix_of(pk, key_of(t, c))
                        &&& !is_prefix_of(key_of(t, c), pk)
                        &&& bk == crate::bits::common_prefix(pk, key_of(t, c))
                        &&& is_strict_prefix_of(bk, pk)
                        &&& is_strict_prefix_of(bk, key_of(t, c))
                        &&& prefix_right == branch_right(bk, pk)
                        &&& branch_right(bk, key_of(t, c)) == !prefix_right
                    },
                }
            }),
    {
        let cur_p = &self.nodes[cur].prefix;
        if cur_p.eq(prefix) {
            DirectionForInsert::Reached
        } else {
            proof {
                lemma_proper_prefix_shorter(
                    key_of(self.view_nodes(), cur as int),
                    prefix.bits(),
                );
            }
            let right = to_right(cur_p, prefix);
            if let Some(child) = self.get_child(cur, right) {
                proof {
                    assert(is_link(self.view_nodes(), cur as int, right, child as int));
                }
                let child_p = &self.nodes[child].prefix;
                if child_p.contains(prefix) {
                    DirectionForInsert::Enter { next: child, right }
                } else if prefix.contains(child_p) {
                    proof {
                        if prefix.bits() == child_p.bits() {
                            lemma_prefix_refl(child_p.bits());
                        }
                        lemma_proper_prefix_shorter(prefix.bits(), child_p.bits());
                    }
                    DirectionForInsert::NewChild {
                        right,
                        child_right: to_right(prefix, child_p),
                    }
                } else {
                    let branch_prefix = prefix.longest_common_prefix(child_p);
                    proof {
                        crate::bits::lemma_common_prefix_branches(prefix.bits(), child_p.bits());
                    }
                    let prefix_right = to_right(&branch_prefix, prefix);
                    DirectionForInsert::NewBranch { branch_prefix, right, prefix_right }
                }
            } else {
                DirectionForInsert::NewLeaf { right }
            }
        }
    }
}

} // verus!
