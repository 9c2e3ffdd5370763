//! The prefix map facade: one arena, with exact lookup, insertion, removal
//! and the iterator/view constructors.  Every contract is stated over the
//! map's abstract contents, a `Map` from bit strings to values.

use vstd::prelude::*;
use crate::bits::{
    branch_right, is_prefix_of, is_strict_prefix_of, lemma_prefix_refl, lemma_proper_prefix_shorter,
};
use crate::inner::{
    child_of, contents, covers_anc, covers_ext, has_key, in_subtree, is_link, key_of,
    lemma_cover_descend, lemma_reach_extend, lemma_search_descend, lemma_search_empty,
    lemma_search_init, lemma_search_reached, lemma_search_sub_above, lemma_subtree_prefix,
    reach, table_wf, Direction, DirectionForInsert, Node, Table,
};
use crate::prefix::Prefix;

pub mod iter;

verus! {

/// The map built by inserting a sequence of key/value pairs in order: later
/// pairs overwrite earlier ones with the same key.
pub open spec fn fold_entries<T>(ps: Seq<(Seq<bool>, T)>) -> Map<Seq<bool>, T>
    decreases ps.len(),
{
    if ps.len() == 0 {
        Map::empty()
    } else {
        fold_entries(ps.drop_last()).insert(ps.last().0, ps.last().1)
    }
}


/// Some link joins slot `a` to slot `b`.
pub(crate) open spec fn linked<P: Prefix, T>(t: Seq<Node<P, T>>, a: usize, b: usize) -> bool {
    exists|s: bool| is_link(t, a as int, s, b as int)
}

/// A root-to-node path through the arena: consecutive slots are linked,
/// every slot is reachable, and prefix lengths strictly increase along the
/// path (so its slots are pairwise distinct).
pub(crate) open spec fn path_ok<P: Prefix, T>(t: Seq<Node<P, T>>, path: Seq<usize>) -> bool {
    &&& path.len() >= 1
    &&& path[0] == 0usize
    &&& forall|m: int|
        0 <= m < path.len() ==> (#[trigger] path[m] as int) < t.len() && reach(t, path[m] as int)
    &&& forall|m: int| 0 <= m < path.len() - 1 ==> #[trigger] linked(t, path[m], path[m + 1])
    &&& forall|m1: int, m2: int|
        0 <= m1 < m2 < path.len() ==> key_of(t, #[trigger] path[m1] as int).len() < key_of(
            t,
            #[trigger] path[m2] as int,
        ).len()
}

/// Ambient form of the facade's model: whenever a map's well-formedness is
/// mentioned, it means its arena's.
pub(crate) broadcast proof fn lemma_model_wf_auto<P: Prefix, T>(m: PrefixMap<P, T>)
    ensures
        #[trigger] m.wf() == table_wf(m.table.view_nodes()),
{
}

/// Ambient form of the facade's model: whenever a map's contents are
/// mentioned, they mean its arena's stored entries.
pub(crate) broadcast proof fn lemma_model_map_auto<P: Prefix, T>(m: PrefixMap<P, T>)
    ensures
        #[trigger] m.as_map() == contents(m.table.view_nodes()),
{
}

/// Borrow one arena slot mutably.
pub(crate) fn node_mut<P: Prefix, T>(table: &mut Table<P, T>, i: usize) -> (r: &mut Node<P, T>)
    requires
        (i as int) < old(table).view_nodes().len(),
    ensures
        *r == old(table).view_nodes()[i as int],
        final(table).view_nodes() == old(table).view_nodes().update(i as int, *final(r)),
{
    &mut table.nodes[i]
}

/// Borrow a slot's optional value mutably.
pub(crate) fn slot_value_mut<P: Prefix, T>(n: &mut Node<P, T>) -> (r: &mut Option<T>)
    ensures
        *r == old(n).value,
        *final(n) == (Node {
            prefix: old(n).prefix,
            value: *final(r),
            left: old(n).left,
            right: old(n).right,
        }),
{
    &mut n.value
}

/// Borrow a slot's prefix, and its value mutably, when a value is present.
pub(crate) fn node_prefix_value_mut<'a, P: Prefix, T>(n: &'a mut Node<P, T>) -> (r: Option<
    (&'a P, &'a mut T),
>)
    ensures
        match r {
            Some(pv) => {
                &&& old(n).value is Some
                &&& *pv.0 == old(n).prefix
                &&& *pv.1 == old(n).value->0
                &&& *final(n) == (Node {
                    prefix: old(n).prefix,
                    value: Some(*final(pv.1)),
                    left: old(n).left,
                    right: old(n).right,
                })
            },
            None => old(n).value is None && *final(n) == *old(n),
        },
{
    let np = &n.prefix;
    match &mut n.value {
        Some(v) => Some((np, v)),
        None => None,
    }
}

/// Borrow the value inside an optional slot mutably, when present.
pub(crate) fn opt_as_mut<T>(o: &mut Option<T>) -> (r: Option<&mut T>)
    ensures
        match r {
            Some(v) => {
                &&& *old(o) is Some
                &&& *v == old(o)->0
                &&& *final(o) == Some(*final(v))
            },
            None => *old(o) is None && *final(o) is None,
        },
{
    match o {
        Some(v) => Some(v),
        None => None,
    }
}

/// A prefix trie keyed by `P` and storing values of type `T`.
///
/// The abstract contents are given by [`PrefixMap::as_map`]; a key is present
/// exactly when some node of the trie stores a value under its bit string.
pub struct PrefixMap<P, T> {
    pub(crate) table: Table<P, T>,
}

impl<P: Prefix, T> PrefixMap<P, T> {
    /// The well-formedness invariant: established by [`PrefixMap::new`] and
    /// preserved by every operation.
    pub closed spec fn wf(&self) -> bool {
        table_wf(self.table.view_nodes())
    }

    /// The stored contents, as a map from bit strings to values.
    pub closed spec fn as_map(&self) -> Map<Seq<bool>, T> {
        contents(self.table.view_nodes())
    }

    /// The facade's model in terms of its arena: well-formedness is the
    /// arena's, and the contents are the arena's stored entries.
    pub(crate) proof fn lemma_model(&self)
        ensures
            self.wf() == table_wf(self.table.view_nodes()),
            self.as_map() == contents(self.table.view_nodes()),
    {
    }

    /// An empty map: the arena holds only the value-less root sentinel.
    pub fn new() -> (r: Self)
        ensures
            r.wf(),
            r.as_map() == Map::<Seq<bool>, T>::empty(),
    {
        let mut nodes: Vec<Node<P, T>> = Vec::new();
        nodes.push(Node { prefix: P::zero(), value: None, left: None, right: None });
        let r = PrefixMap { table: Table { nodes } };
        proof {
            let t = r.table.view_nodes();
            assert forall|i: int, s: bool, c: int| #[trigger]
                is_link(t, i, s, c) implies false by {
                assert(child_of(t, i, s) is None);
            }
            assert(r.as_map() =~= Map::<Seq<bool>, T>::empty()) by {
                assert(forall|k: Seq<bool>| !has_key(t, k));
            }
        }
        r
    }

    /// Walk from the root to the node whose key is exactly `prefix.bits()`,
    /// when it exists.  On `Some(i)`, slot `i` is the unique reachable node
    /// with that key; on `None` no slot stores a value under that key.
    pub(crate) fn find_node(&self, prefix: &P) -> (r: Option<usize>)
        requires
            self.wf(),
        ensures
            match r {
                Some(i) => {
                    let t = self.table.view_nodes();
                    &&& i < t.len()
                    &&& reach(t, i as int)
                    &&& key_of(t, i as int) == prefix.bits()
                    &&& covers_ext(t, i as int, prefix.bits())
                },
                None => !self.as_map().contains_key(prefix.bits()),
            },
    {
        let ghost t = self.table.view_nodes();
        let ghost pk = prefix.bits();
        let mut cur: usize = 0;
        proof {
            lemma_search_init::<P, T>(t, pk);
            assert(is_prefix_of(key_of(t, 0), pk)) by {
                assert(key_of(t, 0) =~= pk.take(0));
            }
        }
        loop
            invariant
                self.wf(),
                t == self.table.view_nodes(),
                pk == prefix.bits(),
                cur < t.len(),
                reach(t, cur as int),
                is_prefix_of(key_of(t, cur as int), pk),
                covers_ext(t, cur as int, pk),
            decreases pk.len() - key_of(t, cur as int).len(),
        {
            match self.table.get_direction(cur, prefix) {
                Direction::Reached => {
                    return Some(cur);
                },
                Direction::Enter { next, right } => {
                    proof {
                        lemma_proper_prefix_shorter(key_of(t, cur as int), pk);
                        lemma_search_descend(t, pk, cur as int, next as int);
                        lemma_reach_extend(t, cur as int, right, next as int);
                    }
                    cur = next;
                },
                Direction::Missing => {
                    proof {
                        lemma_proper_prefix_shorter(key_of(t, cur as int), pk);
                        let s = branch_right(key_of(t, cur as int), pk);
                        match child_of(t, cur as int, s) {
                            Some(c) => {
                                assert(is_link(t, cur as int, s, c as int));
                                if is_prefix_of(pk, key_of(t, c as int)) {
                                    if pk == key_of(t, c as int) {
                                        lemma_prefix_refl(pk);
                                        assert(false);
                                    }
                                    lemma_proper_prefix_shorter(pk, key_of(t, c as int));
                                    lemma_search_sub_above(t, pk, cur as int, c as int);
                                } else {
                                    lemma_search_empty(t, pk, cur as int);
                                }
                            },
                            None => {
                                lemma_search_empty(t, pk, cur as int);
                            },
                        }
                    }
                    return None;
                },
            }
        }
    }

    /// Get a reference to the value stored under `prefix`, if any.
    pub fn get(&self, prefix: &P) -> (r: Option<&T>)
        requires
            self.wf(),
        ensures
            match r {
                Some(v) => self.as_map().contains_key(prefix.bits()) && *v == self.as_map()[
                    prefix.bits()],
                None => !self.as_map().contains_key(prefix.bits()),
            },
    {
        match self.find_node(prefix) {
            Some(i) => {
                proof {
                    lemma_search_reached(
                        self.table.view_nodes(),
                        prefix.bits(),
                        i as int,
                    );
                }
                self.table.nodes[i].value.as_ref()
            },
            None => None,
        }
    }

    /// Get a mutable reference to the value stored under `prefix`, if any.
    /// The final contents bind `prefix` to whatever the caller leaves in the
    /// returned reference.
    pub fn get_mut(&mut self, prefix: &P) -> (r: Option<&mut T>)
        requires
            old(self).wf(),
        ensures
            final(self).wf(),
            match r {
                Some(v) => {
                    &&& old(self).as_map().contains_key(prefix.bits())
                    &&& *v == old(self).as_map()[prefix.bits()]
                    &&& final(self).as_map() == old(self).as_map().insert(
                        prefix.bits(),
                        *final(v),
                    )
                },
                None => {
                    &&& !old(self).as_map().contains_key(prefix.bits())
                    &&& final(self).as_map() == old(self).as_map()
                },
            },
    {
        let ghost t1 = self.table.view_nodes();
        let ghost pk = prefix.bits();
        match self.find_node(prefix) {
            Some(i) => {
                proof {
                    lemma_search_reached(t1, pk, i as int);
                }
                let node = node_mut(&mut self.table, i);
                let slot = slot_value_mut(node);
                match opt_as_mut(slot) {
                    Some(v) => {
                        proof {
                            let t2 = t1.update(
                                i as int,
                                Node {
                                    prefix: t1[i as int].prefix,
                                    value: Some(*final(v)),
                                    left: t1[i as int].left,
                                    right: t1[i as int].right,
                                },
                            );
                            assert(crate::inner::same_shape(t1, t2)) by {
                                assert(forall|n: int|
                                    0 <= n < t1.len() && n != i ==> #[trigger] t2[n] == t1[n]);
                            }
                            crate::inner::lemma_contents_value_update(t1, t2, i as int);
                        }
                        Some(v)
                    },
                    None => {
                        proof {
                            assert(t1[i as int].value is None);
                            assert((Node {
                                prefix: t1[i as int].prefix,
                                value: Option::<T>::None,
                                left: t1[i as int].left,
                                right: t1[i as int].right,
                            }) == t1[i as int]);
                            assert(t1.update(i as int, t1[i as int]) =~= t1);
                        }
                        None
                    },
                }
            },
            None => None,
        }
    }

    /// Insert a value under `prefix`, returning the value previously stored
    /// under exactly that prefix, if any.
    pub fn insert(&mut self, prefix: P, value: T) -> (r: Option<T>)
        requires
            old(self).wf(),
        ensures
            final(self).wf(),
            final(self).as_map() == old(self).as_map().insert(prefix.bits(), value),
            match r {
                Some(v) => old(self).as_map().contains_key(prefix.bits()) && v == old(
                    self,
                ).as_map()[prefix.bits()],
                None => !old(self).as_map().contains_key(prefix.bits()),
            },
    {
        let ghost pk = prefix.bits();
        let mut cur: usize = 0;
        proof {
            lemma_search_init::<P, T>(old(self).table.view_nodes(), pk);
            assert(is_prefix_of(key_of(old(self).table.view_nodes(), 0), pk)) by {
                assert(key_of(old(self).table.view_nodes(), 0) =~= pk.take(0));
            }
        }
        loop
            invariant
                self.wf(),
                self.table.view_nodes() == old(self).table.view_nodes(),
                pk == prefix.bits(),
                cur < self.table.view_nodes().len(),
                reach(self.table.view_nodes(), cur as int),
                is_prefix_of(key_of(self.table.view_nodes(), cur as int), pk),
                covers_ext(self.table.view_nodes(), cur as int, pk),
                covers_anc(self.table.view_nodes(), cur as int, pk),
            decreases pk.len() - key_of(self.table.view_nodes(), cur as int).len(),
        {
            let ghost t1 = self.table.view_nodes();
            match self.table.get_direction_for_insert(cur, &prefix) {
                DirectionForInsert::Enter { next, right } => {
                    proof {
                        lemma_proper_prefix_shorter(key_of(t1, cur as int), pk);
                        lemma_search_descend(t1, pk, cur as int, next as int);
                        lemma_cover_descend(t1, pk, cur as int, next as int);
                        lemma_reach_extend(t1, cur as int, right, next as int);
                    }
                    cur = next;
                },
                DirectionForInsert::Reached => {
                    proof {
                        lemma_search_reached(t1, pk, cur as int);
                    }
                    let mut slot: Option<T> = Some(value);
                    core::mem::swap(&mut self.table.nodes[cur].value, &mut slot);
                    proof {
                        let t2 = self.table.view_nodes();
                        assert(crate::inner::same_shape(t1, t2)) by {
                            assert(forall|i: int|
                                0 <= i < t1.len() && i != cur ==> #[trigger] t2[i] == t1[i]);
                        }
                        crate::inner::lemma_contents_value_update(t1, t2, cur as int);
                        assert(self.as_map() =~= old(self).as_map().insert(pk, value));
                    }
                    return slot;
                },
                DirectionForInsert::NewLeaf { right } => {
                    proof {
                        lemma_proper_prefix_shorter(key_of(t1, cur as int), pk);
                        lemma_search_empty(t1, pk, cur as int);
                        assert forall|j: int|
                            0 <= j < t1.len() && #[trigger] reach(t1, j) implies key_of(t1, j)
                            != pk by {
                            if key_of(t1, j) == pk {
                                lemma_prefix_refl(pk);
                            }
                        }
                    }
                    let nnew = self.table.nodes.len();
                    self.table.nodes.push(
                        Node { prefix, value: Some(value), left: None, right: None },
                    );
                    let _old_child = self.table.set_child(cur, nnew, right);
                    proof {
                        let t2 = self.table.view_nodes();
                        assert(is_link(t2, cur as int, right, nnew as int));
                        crate::inner::lemma_graft_leaf(t1, t2, cur as int, right);
                        crate::inner::lemma_contents_append(t1, t2, nnew as int);
                        assert(self.as_map() =~= old(self).as_map().insert(pk, value));
                    }
                    return None;
                },
                DirectionForInsert::NewChild { right, child_right } => {
                    let cold = self.table.get_child(cur, right).unwrap();
                    proof {
                        lemma_proper_prefix_shorter(key_of(t1, cur as int), pk);
                        assert(is_link(t1, cur as int, right, cold as int));
                        lemma_search_sub_above(t1, pk, cur as int, cold as int);
                    }
                    let nnew = self.table.nodes.len();
                    self.table.nodes.push(
                        Node {
                            prefix,
                            value: Some(value),
                            left: if child_right {
                                None
                            } else {
                                Some(cold)
                            },
                            right: if child_right {
                                Some(cold)
                            } else {
                                None
                            },
                        },
                    );
                    let _old_child = self.table.set_child(cur, nnew, right);
                    proof {
                        let t2 = self.table.view_nodes();
                        assert(is_link(t2, cur as int, right, nnew as int));
                        assert(is_link(t2, nnew as int, child_right, cold as int));
                        crate::inner::lemma_graft_child(
                            t1,
                            t2,
                            cur as int,
                            right,
                            child_right,
                            cold as int,
                        );
                        crate::inner::lemma_contents_append(t1, t2, nnew as int);
                        assert(self.as_map() =~= old(self).as_map().insert(pk, value));
                    }
                    return None;
                },
                DirectionForInsert::NewBranch { branch_prefix, right, prefix_right } => {
                    let cold = self.table.get_child(cur, right).unwrap();
                    let ghost bk = branch_prefix.bits();
                    proof {
                        lemma_proper_prefix_shorter(key_of(t1, cur as int), pk);
                        assert(is_link(t1, cur as int, right, cold as int));
                        lemma_search_empty(t1, pk, cur as int);
                        assert forall|j: int|
                            0 <= j < t1.len() && #[trigger] reach(t1, j) implies key_of(t1, j)
                            != pk && key_of(t1, j) != bk by {
                            if key_of(t1, j) == pk {
                                lemma_prefix_refl(pk);
                            }
                            if key_of(t1, j) == bk {
                                crate::bits::lemma_common_prefix(pk, key_of(t1, cold as int));
                                assert(is_prefix_of(key_of(t1, cur as int), bk)) by {
                                    assert(is_prefix_of(
                                        key_of(t1, cur as int),
                                        key_of(t1, cold as int),
                                    ));
                                }
                                assert(bk.len() > key_of(t1, cur as int).len()) by {
                                    if bk == key_of(t1, cur as int) {
                                        assert(branch_right(bk, pk) == right);
                                        assert(branch_right(bk, key_of(t1, cold as int))
                                            == right);
                                    }
                                    lemma_proper_prefix_shorter(key_of(t1, cur as int), bk);
                                }
                                assert(in_subtree(t1, cur as int, j));
                                let c2 = crate::inner::lemma_subtree_step(t1, cur as int, j);
                                crate::bits::lemma_prefix_index(bk, pk);
                                assert(branch_right(key_of(t1, cur as int), bk) == branch_right(
                                    key_of(t1, cur as int),
                                    pk,
                                ));
                                assert(c2 == cold as int);
                                lemma_subtree_prefix(t1, cold as int, j);
                                assert(key_of(t1, cold as int).len() <= bk.len());
                                assert(false);
                            }
                        }
                    }
                    let nnew = self.table.nodes.len();
                    self.table.nodes.push(
                        Node { prefix, value: Some(value), left: None, right: None },
                    );
                    let nb = self.table.nodes.len();
                    self.table.nodes.push(
                        Node {
                            prefix: branch_prefix,
                            value: None,
                            left: if prefix_right {
                                Some(cold)
                            } else {
                                Some(nnew)
                            },
                            right: if prefix_right {
                                Some(nnew)
                            } else {
                                Some(cold)
                            },
                        },
                    );
                    let _old_child = self.table.set_child(cur, nb, right);
                    proof {
                        let t2 = self.table.view_nodes();
                        assert(is_link(t2, cur as int, right, nb as int));
                        assert(is_link(t2, nb as int, prefix_right, nnew as int));
                        assert(is_link(t2, nb as int, !prefix_right, cold as int));
                        crate::bits::lemma_common_prefix(pk, key_of(t1, cold as int));
                        assert(is_prefix_of(key_of(t1, cur as int), bk)) by {
                            assert(is_prefix_of(
                                key_of(t1, cur as int),
                                key_of(t1, cold as int),
                            ));
                        }
                        assert(bk != key_of(t1, cur as int)) by {
                            if bk == key_of(t1, cur as int) {
                                assert(branch_right(bk, pk) == right);
                                assert(branch_right(bk, key_of(t1, cold as int)) == right);
                            }
                        }
                        lemma_proper_prefix_shorter(key_of(t1, cur as int), bk);
                        crate::bits::lemma_prefix_index(bk, pk);
                        assert(branch_right(key_of(t1, cur as int), bk) == right);
                        crate::inner::lemma_graft_branch(
                            t1,
                            t2,
                            cur as int,
                            right,
                            prefix_right,
                            cold as int,
                            nb as int,
                            nnew as int,
                        );
                        crate::inner::lemma_contents_append(t1, t2, nnew as int);
                        assert(self.as_map() =~= old(self).as_map().insert(pk, value));
                    }
                    return None;
                },
            }
        }
    }

    /// Remove and return the value stored under exactly `prefix`, leaving the
    /// tree structure untouched: the node stays behind as a branching node,
    /// so indices held by views stay valid.
    pub fn remove_keep_tree(&mut self, prefix: &P) -> (r: Option<T>)
        requires
            old(self).wf(),
        ensures
            final(self).wf(),
            final(self).as_map() == old(self).as_map().remove(prefix.bits()),
            match r {
                Some(v) => old(self).as_map().contains_key(prefix.bits()) && v == old(
                    self,
                ).as_map()[prefix.bits()],
                None => !old(self).as_map().contains_key(prefix.bits()),
            },
    {
        let ghost pk = prefix.bits();
        let ghost t1 = self.table.view_nodes();
        match self.find_node(prefix) {
            Some(i) => {
                proof {
                    lemma_search_reached(t1, pk, i as int);
                }
                let mut slot: Option<T> = None;
                core::mem::swap(&mut self.table.nodes[i].value, &mut slot);
                proof {
                    let t2 = self.table.view_nodes();
                    assert(crate::inner::same_shape(t1, t2)) by {
                        assert(forall|n: int|
                            0 <= n < t1.len() && n != i ==> #[trigger] t2[n] == t1[n]);
                    }
                    crate::inner::lemma_contents_value_update(t1, t2, i as int);
                    assert(self.as_map() =~= old(self).as_map().remove(pk));
                }
                slot
            },
            None => {
                proof {
                    assert(self.as_map() =~= old(self).as_map().remove(pk));
                }
                None
            },
        }
    }

    /// Remove and return the value stored under exactly `prefix`, then prune:
    /// any node left without a value and with at most one child is spliced
    /// out of the tree, repeatedly up the search path.
    pub fn remove(&mut self, prefix: &P) -> (r: Option<T>)
        requires
            old(self).wf(),
        ensures
            final(self).wf(),
            final(self).as_map() == old(self).as_map().remove(prefix.bits()),
            match r {
                Some(v) => old(self).as_map().contains_key(prefix.bits()) && v == old(
                    self,
                ).as_map()[prefix.bits()],
                None => !old(self).as_map().contains_key(prefix.bits()),
            },
    {
        let ghost pk = prefix.bits();
        let mut path: Vec<usize> = Vec::new();
        path.push(0);
        proof {
            lemma_search_init::<P, T>(self.table.view_nodes(), pk);
            assert(is_prefix_of(key_of(self.table.view_nodes(), 0), pk)) by {
                assert(key_of(self.table.view_nodes(), 0) =~= pk.take(0));
            }
        }
        loop
            invariant
                self.wf(),
                self.table.view_nodes() == old(self).table.view_nodes(),
                pk == prefix.bits(),
                path_ok(self.table.view_nodes(), path@),
                is_prefix_of(key_of(self.table.view_nodes(), path@.last() as int), pk),
                covers_ext(self.table.view_nodes(), path@.last() as int, pk),
            ensures
                self.wf(),
                self.table.view_nodes() == old(self).table.view_nodes(),
                path_ok(self.table.view_nodes(), path@),
                covers_ext(self.table.view_nodes(), path@.last() as int, pk),
                reach(self.table.view_nodes(), path@.last() as int),
                key_of(self.table.view_nodes(), path@.last() as int) == pk,
            decreases pk.len() - key_of(self.table.view_nodes(), path@.last() as int).len(),
        {
            let cur = path[path.len() - 1];
            let ghost t = self.table.view_nodes();
            match self.table.get_direction(cur, prefix) {
                Direction::Reached => {
                    break ;
                },
                Direction::Enter { next, right } => {
                    proof {
                        lemma_proper_prefix_shorter(key_of(t, cur as int), pk);
                        lemma_search_descend(t, pk, cur as int, next as int);
                        lemma_reach_extend(t, cur as int, right, next as int);
                    }
                    path.push(next);
                    proof {
                        let pa = path@;
                        assert forall|m1: int, m2: int|
                            0 <= m1 < m2 < pa.len() implies key_of(
                            t,
                            #[trigger] pa[m1] as int,
                        ).len() < key_of(t, #[trigger] pa[m2] as int).len() by {
                            if m2 == pa.len() - 1 {
                                assert(is_strict_prefix_of(
                                    key_of(t, cur as int),
                                    key_of(t, next as int),
                                ));
                                if m1 < pa.len() - 2 {
                                    assert(key_of(t, pa[m1] as int).len() < key_of(
                                        t,
                                        pa[pa.len() - 2] as int,
                                    ).len());
                                }
                            }
                        }
                    }
                },
                Direction::Missing => {
                    proof {
                        lemma_proper_prefix_shorter(key_of(t, cur as int), pk);
                        let s = branch_right(key_of(t, cur as int), pk);
                        match child_of(t, cur as int, s) {
                            Some(c) => {
                                assert(is_link(t, cur as int, s, c as int));
                                if is_prefix_of(pk, key_of(t, c as int)) {
                                    if pk == key_of(t, c as int) {
                                        lemma_prefix_refl(pk);
                                        assert(false);
                                    }
                                    lemma_proper_prefix_shorter(pk, key_of(t, c as int));
                                    lemma_search_sub_above(t, pk, cur as int, c as int);
                                } else {
                                    lemma_search_empty(t, pk, cur as int);
                                }
                            },
                            None => {
                                lemma_search_empty(t, pk, cur as int);
                            },
                        }
                        assert(self.as_map() =~= old(self).as_map().remove(pk));
                    }
                    return None;
                },
            }
        }
        // clear the value at the node we reached
        let cur = path[path.len() - 1];
        let ghost t1 = self.table.view_nodes();
        proof {
            lemma_search_reached(t1, pk, cur as int);
        }
        let mut slot: Option<T> = None;
        core::mem::swap(&mut self.table.nodes[cur].value, &mut slot);
        proof {
            let t2 = self.table.view_nodes();
            assert(crate::inner::same_shape(t1, t2)) by {
                assert(forall|n: int| 0 <= n < t1.len() && n != cur ==> #[trigger] t2[n] == t1[n]);
            }
            crate::inner::lemma_contents_value_update(t1, t2, cur as int);
            assert(self.as_map() =~= old(self).as_map().remove(pk));
            assert(path_ok(t2, path@)) by {
                crate::inner::lemma_same_shape_links(t1, t2);
                assert forall|m: int| 0 <= m < path@.len() implies (#[trigger] path@[m] as int)
                    < t2.len() && reach(t2, path@[m] as int) by {
                    crate::inner::lemma_same_shape_reach(t1, t2, path@[m] as int);
                }
                assert forall|m: int| 0 <= m < path@.len() - 1 implies #[trigger] linked(
                    t2,
                    path@[m],
                    path@[m + 1],
                ) by {
                    assert(linked(t1, path@[m], path@[m + 1]));
                    let s0 = choose|s: bool|
                        #[trigger] is_link(t1, path@[m] as int, s, path@[m + 1] as int);
                    assert(is_link(t1, path@[m] as int, s0, path@[m + 1] as int));
                    assert(is_link(t2, path@[m] as int, s0, path@[m + 1] as int));
                }
            }
        }
        // prune valueless nodes with at most one child, up the path
        loop
            invariant
                self.wf(),
                pk == prefix.bits(),
                self.as_map() == old(self).as_map().remove(pk),
                path_ok(self.table.view_nodes(), path@),
            decreases path@.len(),
        {
            if path.len() < 2 {
                break ;
            }
            let x = path[path.len() - 1];
            let p = path[path.len() - 2];
            if self.table.nodes[x].value.is_some() {
                break ;
            }
            let lc = self.table.get_child(x, false);
            let rc = self.table.get_child(x, true);
            if lc.is_some() && rc.is_some() {
                break ;
            }
            let ghost tp = self.table.view_nodes();
            let sx = match self.table.get_child(p, true) {
                Some(rr) => rr == x,
                None => false,
            };
            proof {
                let m = path@.len() - 2;
                assert(linked(tp, path@[m], path@[m + 1]));
                let s0 = choose|s: bool| #[trigger] is_link(tp, p as int, s, x as int);
                assert(is_link(tp, p as int, s0, x as int)) by {
                    let s1 = choose|s: bool| #[trigger] is_link(tp, path@[m] as int, s, path@[m + 1] as int);
                    assert(is_link(tp, path@[m] as int, s1, path@[m + 1] as int));
                }
                if s0 {
                    assert(sx);
                } else {
                    if sx {
                        assert(is_link(tp, p as int, true, x as int));
                        assert(false);
                    }
                }
                assert(is_link(tp, p as int, sx, x as int));
                assert(p != x) by {
                    assert(is_strict_prefix_of(key_of(tp, p as int), key_of(tp, x as int)));
                }
            }
            if let Some(ch) = lc {
                let _ = self.table.clear_child(x, false);
                let _ = self.table.set_child(p, ch, sx);
                proof {
                    crate::inner::lemma_splice(
                        tp,
                        self.table.view_nodes(),
                        p as int,
                        sx,
                        x as int,
                        true,
                        false,
                        ch as int,
                    );
                }
            } else if let Some(ch) = rc {
                let _ = self.table.clear_child(x, true);
                let _ = self.table.set_child(p, ch, sx);
                proof {
                    crate::inner::lemma_splice(
                        tp,
                        self.table.view_nodes(),
                        p as int,
                        sx,
                        x as int,
                        true,
                        true,
                        ch as int,
                    );
                }
            } else {
                let _ = self.table.clear_child(p, sx);
                proof {
                    crate::inner::lemma_splice(
                        tp,
                        self.table.view_nodes(),
                        p as int,
                        sx,
                        x as int,
                        false,
                        false,
                        0,
                    );
                }
            }
            let _ = path.pop();
            proof {
                let t2 = self.table.view_nodes();
                assert(self.as_map() =~= old(self).as_map().remove(pk)) by {
                    assert(contents(t2) =~= contents(tp));
                }
                assert(path_ok(t2, path@)) by {
                    assert forall|m: int| 0 <= m < path@.len() implies (#[trigger] path@[
                    m] as int) < t2.len() && reach(t2, path@[m] as int) by {
                        assert(key_of(tp, path@[m] as int).len() < key_of(tp, x as int).len());
                        assert(path@[m] as int != x as int);
                        assert(reach(tp, path@[m] as int));
                    }
                    assert forall|m: int| 0 <= m < path@.len() - 1 implies #[trigger] linked(
                        t2,
                        path@[m],
                        path@[m + 1],
                    ) by {
                        assert(linked(tp, path@[m], path@[m + 1]));
                        let s0 = choose|s: bool|
                            #[trigger] is_link(tp, path@[m] as int, s, path@[m + 1] as int);
                        assert(is_link(tp, path@[m] as int, s0, path@[m + 1] as int));
                        assert(path@[m] as int != p as int && path@[m] as int != x as int) by {
                            assert(key_of(tp, path@[m] as int).len() < key_of(
                                tp,
                                p as int,
                            ).len());
                        }
                        assert(is_link(t2, path@[m] as int, s0, path@[m + 1] as int));
                    }
                    assert forall|m1: int, m2: int|
                        0 <= m1 < m2 < path@.len() implies key_of(
                        t2,
                        #[trigger] path@[m1] as int,
                    ).len() < key_of(t2, #[trigger] path@[m2] as int).len() by {
                        assert(key_of(tp, path@[m1] as int).len() < key_of(
                            tp,
                            path@[m2] as int,
                        ).len());
                    }
                }
            }
        }
        slot
    }

    /// Build a map from a sequence of prefix/value pairs, inserting them in
    /// order: exactly as repeated [`PrefixMap::insert`] calls.
    pub fn from_entries(entries: Vec<(P, T)>) -> (r: Self)
        ensures
            r.wf(),
            r.as_map() == fold_entries(entries@.map_values(|e: (P, T)| (e.0.bits(), e.1))),
    {
        let ghost all = entries@.map_values(|e: (P, T)| (e.0.bits(), e.1));
        let mut st = entries;
        let mut rev: Vec<(P, T)> = Vec::new();
        let ghost n = st@.len();
        loop
            invariant
                n == all.len(),
                st@.len() <= n,
                rev@.len() == n - st@.len(),
                forall|q: int|
                    0 <= q < st@.len() ==> (#[trigger] st@[q].0.bits(), st@[q].1) == all[q],
                forall|q: int|
                    0 <= q < rev@.len() ==> (#[trigger] rev@[q].0.bits(), rev@[q].1) == all[
                        n - 1 - q],
            ensures
                st@.len() == 0,
                rev@.len() == n,
            decreases st@.len(),
        {
            match st.pop() {
                Some(e) => {
                    proof {
                        assert((e.0.bits(), e.1) == all[st@.len() as int]);
                    }
                    rev.push(e);
                },
                None => {
                    break ;
                },
            }
        }
        let mut m = Self::new();
        proof {
            assert(m.as_map() =~= fold_entries(all.take(0)));
        }
        loop
            invariant
                m.wf(),
                n == all.len(),
                rev@.len() <= n,
                forall|q: int|
                    0 <= q < rev@.len() ==> (#[trigger] rev@[q].0.bits(), rev@[q].1) == all[
                        n - 1 - q],
                m.as_map() == fold_entries(all.take(n - rev@.len())),
            ensures
                rev@.len() == 0,
                m.as_map() == fold_entries(all.take(n as int)),
            decreases rev@.len(),
        {
            match rev.pop() {
                Some(e) => {
                    let ghost i = n - rev@.len() - 1;
                    proof {
                        assert((e.0.bits(), e.1) == all[i]);
                    }
                    let _ = m.insert(e.0, e.1);
                    proof {
                        assert(all.take(i + 1).drop_last() =~= all.take(i));
                        assert(all.take(i + 1).last() == all[i]);
                        assert(m.as_map() == fold_entries(all.take(i + 1)));
                    }
                },
                None => {
                    break ;
                },
            }
        }
        proof {
            assert(all.take(n as int) =~= all);
        }
        m
    }

    /// Whether a value is stored under exactly `prefix`.
    pub fn contains_key(&self, prefix: &P) -> (r: bool)
        requires
            self.wf(),
        ensures
            r == self.as_map().contains_key(prefix.bits()),
    {
        self.get(prefix).is_some()
    }
}

} // verus!
