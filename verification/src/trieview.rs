//! Views: cursors over a subtree of a prefix trie.  A read-only [`TrieView`]
//! borrows the map and may be copied and overlapped freely.  A [`TrieViewMut`]
//! is a cursor that asserts a location; every operation that moves to a child
//! consumes the parent cursor, so two live mutable cursors obtained by
//! [`TrieViewMut::split`] always govern disjoint key sets.
//!
//! A view points either at a real arena slot, or at a *virtual* branching
//! point: a prefix that is not materialised as a node, recorded together with
//! the single existing slot hanging below it.

use vstd::prelude::*;
use crate::bits::{
    branch_right, is_prefix_of, is_strict_prefix_of, lemma_extend_one, lemma_prefix_index,
    lemma_prefix_linear, lemma_prefix_refl, lemma_prefix_trans, lemma_proper_prefix_shorter,
};
use crate::inner::{
    child_of, contents, covers_anc, covers_ext, has_key, in_subtree, is_link, key_of,
    lemma_cover_descend, lemma_cover_stop, lemma_has_key_unique, lemma_reach_extend,
    lemma_reachable_ordered, lemma_search_descend, lemma_search_empty, lemma_search_reached,
    lemma_search_sub_above, lemma_subtree_prefix, lemma_subtree_step, reach, table_wf, Direction,
    DirectionForInsert, Table,
};
use crate::map::iter::{entries_match, restrict_below, Iter, Keys, Values};
use crate::map::PrefixMap;
use crate::prefix::{to_right, Prefix};

verus! {

broadcast use crate::map::lemma_model_wf_auto, crate::map::lemma_model_map_auto;


/// Where a view points: a real arena slot, or a virtual branching point
/// above the single slot `usize` that would hang below it.
pub(crate) enum ViewLoc<P> {
    Node(usize),
    Virtual(P, usize),
}

/// The slot index a location descends through.
pub(crate) open spec fn loc_idx<P>(loc: ViewLoc<P>) -> int {
    match loc {
        ViewLoc::Node(i) => i as int,
        ViewLoc::Virtual(_, i) => i as int,
    }
}

/// The prefix a location stands at.
pub(crate) open spec fn loc_bits<P: Prefix, T>(
    t: Seq<crate::inner::Node<P, T>>,
    loc: ViewLoc<P>,
) -> Seq<bool> {
    match loc {
        ViewLoc::Node(i) => key_of(t, i as int),
        ViewLoc::Virtual(p, _) => p.bits(),
    }
}

/// A location is well formed for a table: its slot is reachable and, for a
/// virtual location, the virtual prefix sits strictly above the slot, is
/// keyed by no reachable slot, and all its stored extensions lie below the
/// slot.
pub(crate) open spec fn loc_wf<P: Prefix, T>(
    t: Seq<crate::inner::Node<P, T>>,
    loc: ViewLoc<P>,
) -> bool {
    match loc {
        ViewLoc::Node(i) => (i as int) < t.len() && reach(t, i as int),
        ViewLoc::Virtual(p, i) => {
            &&& (i as int) < t.len()
            &&& reach(t, i as int)
            &&& is_strict_prefix_of(p.bits(), key_of(t, i as int))
            &&& forall|j: int|
                0 <= j < t.len() && #[trigger] reach(t, j) ==> key_of(t, j) != p.bits()
            &&& forall|j: int|
                0 <= j < t.len() && #[trigger] reach(t, j) && is_prefix_of(p.bits(), key_of(t, j))
                    ==> in_subtree(t, i as int, j)
        },
    }
}

/// At a well-formed location, a stored key extends the location's prefix
/// exactly when its slot lies below the location's slot.
proof fn lemma_loc_captures<P: Prefix, T>(t: Seq<crate::inner::Node<P, T>>, loc: ViewLoc<P>)
    requires
        table_wf(t),
        loc_wf(t, loc),
    ensures
        forall|j: int|
            0 <= j < t.len() && #[trigger] reach(t, j) ==> (is_prefix_of(
                loc_bits(t, loc),
                key_of(t, j),
            ) <==> in_subtree(t, loc_idx(loc), j)),
{
    let i = loc_idx(loc);
    assert forall|j: int| 0 <= j < t.len() && #[trigger] reach(t, j) implies (is_prefix_of(
        loc_bits(t, loc),
        key_of(t, j),
    ) <==> in_subtree(t, i, j)) by {
        match loc {
            ViewLoc::Node(_) => {
                if is_prefix_of(loc_bits(t, loc), key_of(t, j)) {
                    lemma_reachable_ordered(t, i, j);
                }
                if in_subtree(t, i, j) {
                    lemma_subtree_prefix(t, i, j);
                }
            },
            ViewLoc::Virtual(p, _) => {
                if in_subtree(t, i, j) {
                    lemma_subtree_prefix(t, i, j);
                    lemma_prefix_trans(p.bits(), key_of(t, i), key_of(t, j));
                }
            },
        }
    }
}

/// Find `prefix` below `loc`: the location of the most general position
/// holding exactly the stored keys that `prefix` contains.  `Err` gives the
/// location back: `prefix` falls outside the view, or nothing stored extends
/// it.
fn find_loc<P: Prefix, T>(table: &Table<P, T>, loc: ViewLoc<P>, prefix: P) -> (r: Result<
    ViewLoc<P>,
    ViewLoc<P>,
>)
    requires
        table_wf(table.view_nodes()),
        loc_wf(table.view_nodes(), loc),
    ensures
        ({
            let t = table.view_nodes();
            match r {
                Ok(nl) => {
                    &&& loc_wf(t, nl)
                    &&& loc_bits(t, nl) == prefix.bits()
                    &&& is_prefix_of(loc_bits(t, loc), prefix.bits())
                },
                Err(l) => {
                    &&& l == loc
                    &&& is_prefix_of(loc_bits(t, loc), prefix.bits()) ==> forall|k: Seq<bool>|
                        #[trigger] contents(t).contains_key(k) ==> !is_prefix_of(prefix.bits(), k)
                },
            }
        }),
{
    let ghost t = table.view_nodes();
    let ghost pk = prefix.bits();
    let anchor: usize;
    match &loc {
        ViewLoc::Node(i) => {
            let cur_p = &table.nodes[*i].prefix;
            if cur_p.eq(&prefix) {
                let i2 = *i;
                proof {
                    lemma_prefix_refl(pk);
                }
                return Ok(ViewLoc::Node(i2));
            }
            if !cur_p.contains(&prefix) {
                return Err(loc);
            }
            anchor = *i;
        },
        ViewLoc::Virtual(p, i) => {
            if p.eq(&prefix) {
                let i2 = *i;
                proof {
                    lemma_prefix_refl(pk);
                    assert(loc_wf(t, ViewLoc::Virtual(prefix, i2)));
                }
                return Ok(ViewLoc::Virtual(prefix, i2));
            }
            if !p.contains(&prefix) {
                return Err(loc);
            }
            let node_p = &table.nodes[*i].prefix;
            if node_p.contains(&prefix) {
                anchor = *i;
            } else if prefix.contains(node_p) {
                let i2 = *i;
                proof {
                    lemma_proper_prefix_shorter(pk, key_of(t, i2 as int));
                    assert forall|j: int|
                        0 <= j < t.len() && #[trigger] reach(t, j) implies key_of(t, j) != pk && (
                    is_prefix_of(pk, key_of(t, j)) ==> in_subtree(t, i2 as int, j)) by {
                        if key_of(t, j) == pk {
                            lemma_prefix_refl(pk);
                        }
                        if is_prefix_of(pk, key_of(t, j)) {
                            lemma_prefix_trans(p.bits(), pk, key_of(t, j));
                            assert(in_subtree(t, i2 as int, j));
                            lemma_subtree_prefix(t, i2 as int, j);
                            if key_of(t, j) == pk {
                                assert(key_of(t, i2 as int).len() <= pk.len());
                                assert(false);
                            }
                        }
                    }
                    assert(loc_wf(t, ViewLoc::Virtual(prefix, i2)));
                }
                return Ok(ViewLoc::Virtual(prefix, i2));
            } else {
                proof {
                    assert forall|k: Seq<bool>|
                        #[trigger] contents(t).contains_key(k) implies !is_prefix_of(pk, k) by {
                        if is_prefix_of(pk, k) {
                            let j = lemma_has_key_unique(t, k);
                            lemma_prefix_trans(p.bits(), pk, k);
                            assert(in_subtree(t, *i as int, j));
                            lemma_subtree_prefix(t, *i as int, j);
                            if pk.len() <= key_of(t, *i as int).len() {
                                lemma_prefix_linear(pk, key_of(t, *i as int), k);
                            } else {
                                lemma_prefix_linear(key_of(t, *i as int), pk, k);
                            }
                        }
                    }
                }
                return Err(loc);
            }
        },
    }
    let mut cur = anchor;
    proof {
        lemma_loc_captures(t, loc);
        assert(is_prefix_of(loc_bits(t, loc), pk));
        assert(covers_ext(t, cur as int, pk)) by {
            assert forall|j: int|
                0 <= j < t.len() && #[trigger] reach(t, j) && is_prefix_of(
                    pk,
                    key_of(t, j),
                ) implies in_subtree(t, cur as int, j) by {
                lemma_prefix_trans(loc_bits(t, loc), pk, key_of(t, j));
            }
        }
    }
    loop
        invariant
            t == table.view_nodes(),
            table_wf(t),
            pk == prefix.bits(),
            cur < t.len(),
            reach(t, cur as int),
            is_prefix_of(key_of(t, cur as int), pk),
            covers_ext(t, cur as int, pk),
            loc_wf(t, loc),
            is_prefix_of(loc_bits(t, loc), pk),
        decreases pk.len() - key_of(t, cur as int).len(),
    {
        match table.get_direction_for_insert(cur, &prefix) {
            DirectionForInsert::Reached => {
                return Ok(ViewLoc::Node(cur));
            },
            DirectionForInsert::Enter { next, right } => {
                proof {
                    lemma_proper_prefix_shorter(key_of(t, cur as int), pk);
                    lemma_search_descend(t, pk, cur as int, next as int);
                    lemma_reach_extend(t, cur as int, right, next as int);
                }
                cur = next;
            },
            DirectionForInsert::NewChild { right, child_right } => {
                let c = table.get_child(cur, right).unwrap();
                proof {
                    lemma_proper_prefix_shorter(key_of(t, cur as int), pk);
                    assert(is_link(t, cur as int, right, c as int));
                    lemma_search_sub_above(t, pk, cur as int, c as int);
                    lemma_reach_extend(t, cur as int, right, c as int);
                }
                return Ok(ViewLoc::Virtual(prefix, c));
            },
            DirectionForInsert::NewLeaf { right } => {
                proof {
                    lemma_proper_prefix_shorter(key_of(t, cur as int), pk);
                    lemma_search_empty(t, pk, cur as int);
                    lemma_no_stored_extension(t, pk);
                }
                return Err(loc);
            },
            DirectionForInsert::NewBranch { branch_prefix, right, prefix_right } => {
                proof {
                    lemma_proper_prefix_shorter(key_of(t, cur as int), pk);
                    lemma_search_empty(t, pk, cur as int);
                    lemma_no_stored_extension(t, pk);
                }
                return Err(loc);
            },
        }
    }
}

/// When no reachable slot's key extends `pk`, no stored key extends `pk`.
proof fn lemma_no_stored_extension<P: Prefix, T>(t: Seq<crate::inner::Node<P, T>>, pk: Seq<bool>)
    requires
        table_wf(t),
        forall|j: int| 0 <= j < t.len() && #[trigger] reach(t, j) ==> !is_prefix_of(pk, key_of(t, j)),
    ensures
        forall|k: Seq<bool>| #[trigger] contents(t).contains_key(k) ==> !is_prefix_of(pk, k),
{
    assert forall|k: Seq<bool>| #[trigger] contents(t).contains_key(k) implies !is_prefix_of(
        pk,
        k,
    ) by {
        let j = lemma_has_key_unique(t, k);
    }
}

/// Find the slot storing exactly `prefix` within the view at `loc`, if any.
fn find_exact_idx<P: Prefix, T>(table: &Table<P, T>, loc: &ViewLoc<P>, prefix: &P) -> (r: Option<
    usize,
>)
    requires
        table_wf(table.view_nodes()),
        loc_wf(table.view_nodes(), *loc),
    ensures
        ({
            let t = table.view_nodes();
            let pk = prefix.bits();
            match r {
                Some(i) => {
                    &&& (i as int) < t.len()
                    &&& reach(t, i as int)
                    &&& key_of(t, i as int) == pk
                    &&& t[i as int].value is Some
                    &&& contents(t).contains_key(pk)
                    &&& is_prefix_of(loc_bits(t, *loc), pk)
                },
                None => !(contents(t).contains_key(pk) && is_prefix_of(loc_bits(t, *loc), pk)),
            }
        }),
{
    let ghost t = table.view_nodes();
    let ghost pk = prefix.bits();
    let anchor: usize;
    match loc {
        ViewLoc::Node(i) => {
            if !table.nodes[*i].prefix.contains(prefix) {
                proof {
                    if contents(t).contains_key(pk) && is_prefix_of(loc_bits(t, *loc), pk) {
                        assert(false);
                    }
                }
                return None;
            }
            anchor = *i;
        },
        ViewLoc::Virtual(p, i) => {
            if !p.contains(prefix) {
                return None;
            }
            if p.eq(prefix) {
                proof {
                    if contents(t).contains_key(pk) {
                        let j = lemma_has_key_unique(t, pk);
                    }
                }
                return None;
            }
            if table.nodes[*i].prefix.contains(prefix) {
                anchor = *i;
            } else {
                proof {
                    if contents(t).contains_key(pk) {
                        let j = lemma_has_key_unique(t, pk);
                        lemma_prefix_refl(pk);
                        assert(in_subtree(t, *i as int, j));
                        lemma_subtree_prefix(t, *i as int, j);
                    }
                }
                return None;
            }
        },
    }
    let mut cur = anchor;
    proof {
        lemma_loc_captures(t, *loc);
        assert(covers_ext(t, cur as int, pk)) by {
            assert forall|j: int|
                0 <= j < t.len() && #[trigger] reach(t, j) && is_prefix_of(
                    pk,
                    key_of(t, j),
                ) implies in_subtree(t, cur as int, j) by {
                lemma_prefix_trans(loc_bits(t, *loc), pk, key_of(t, j));
            }
        }
    }
    loop
        invariant
            t == table.view_nodes(),
            table_wf(t),
            pk == prefix.bits(),
            cur < t.len(),
            reach(t, cur as int),
            is_prefix_of(key_of(t, cur as int), pk),
            covers_ext(t, cur as int, pk),
            is_prefix_of(loc_bits(t, *loc), pk),
        decreases pk.len() - key_of(t, cur as int).len(),
    {
        match table.get_direction(cur, prefix) {
            Direction::Reached => {
                proof {
                    lemma_search_reached(t, pk, cur as int);
                }
                if table.nodes[cur].value.is_some() {
                    return Some(cur);
                } else {
                    return None;
                }
            },
            Direction::Enter { next, right } => {
                proof {
                    lemma_proper_prefix_shorter(key_of(t, cur as int), pk);
                    lemma_search_descend(t, pk, cur as int, next as int);
                    lemma_reach_extend(t, cur as int, right, next as int);
                }
                cur = next;
            },
            Direction::Missing => {
                proof {
                    lemma_proper_prefix_shorter(key_of(t, cur as int), pk);
                    let s = branch_right(key_of(t, cur as int), pk);
                    match child_of(t, cur as int, s) {
                        Some(c) => {
                            assert(is_link(t, cur as int, s, c as int));
                            if is_prefix_of(pk, key_of(t, c as int)) {
                                if pk == key_of(t, c as int) {
                                    lemma_prefix_refl(pk);
                                    assert(false);
                                }
                                lemma_proper_prefix_shorter(pk, key_of(t, c as int));
                                lemma_search_sub_above(t, pk, cur as int, c as int);
                            } else {
                                lemma_search_empty(t, pk, cur as int);
                            }
                        },
                        None => {
                            lemma_search_empty(t, pk, cur as int);
                        },
                    }
                }
                return None;
            },
        }
    }
}

/// Find the slot of the most specific stored prefix containing `prefix`
/// within the view at `loc`: the longest-prefix match.
fn find_lpm_idx<P: Prefix, T>(table: &Table<P, T>, loc: &ViewLoc<P>, prefix: &P) -> (r: Option<
    usize,
>)
    requires
        table_wf(table.view_nodes()),
        loc_wf(table.view_nodes(), *loc),
    ensures
        ({
            let t = table.view_nodes();
            let pk = prefix.bits();
            let vp = loc_bits(t, *loc);
            match r {
                Some(b) => {
                    &&& (b as int) < t.len()
                    &&& reach(t, b as int)
                    &&& t[b as int].value is Some
                    &&& contents(t).contains_key(key_of(t, b as int))
                    &&& is_prefix_of(vp, key_of(t, b as int))
                    &&& is_prefix_of(key_of(t, b as int), pk)
                    &&& forall|k: Seq<bool>|
                        #[trigger] contents(t).contains_key(k) && is_prefix_of(vp, k)
                            && is_prefix_of(k, pk) ==> is_prefix_of(k, key_of(t, b as int))
                },
                None => forall|k: Seq<bool>|
                    #[trigger] contents(t).contains_key(k) ==> !(is_prefix_of(vp, k)
                        && is_prefix_of(k, pk)),
            }
        }),
{
    let ghost t = table.view_nodes();
    let ghost pk = prefix.bits();
    let ghost vp = loc_bits(t, *loc);
    let anchor: usize;
    match loc {
        ViewLoc::Node(i) => {
            if !table.nodes[*i].prefix.contains(prefix) {
                proof {
                    lemma_lpm_out_of_range::<P, T>(t, vp, pk);
                }
                return None;
            }
            anchor = *i;
        },
        ViewLoc::Virtual(p, i) => {
            if !p.contains(prefix) {
                proof {
                    lemma_lpm_out_of_range::<P, T>(t, vp, pk);
                }
                return None;
            }
            if table.nodes[*i].prefix.contains(prefix) {
                anchor = *i;
            } else {
                proof {
                    assert forall|k: Seq<bool>|
                        #[trigger] contents(t).contains_key(k) implies !(is_prefix_of(vp, k)
                        && is_prefix_of(k, pk)) by {
                        if is_prefix_of(vp, k) && is_prefix_of(k, pk) {
                            let j = lemma_has_key_unique(t, k);
                            assert(in_subtree(t, *i as int, j));
                            lemma_subtree_prefix(t, *i as int, j);
                            lemma_prefix_trans(key_of(t, *i as int), k, pk);
                        }
                    }
                }
                return None;
            }
        },
    }
    let mut cur = anchor;
    let mut best: Option<usize> = None;
    if table.nodes[cur].value.is_some() {
        best = Some(cur);
    }
    proof {
        lemma_loc_captures(t, *loc);
        assert(covers_anc(t, cur as int, pk)) by {
            assert forall|j: int|
                0 <= j < t.len() && #[trigger] reach(t, j) && is_prefix_of(key_of(t, j), pk)
                    && key_of(t, j).len() > key_of(t, cur as int).len() implies in_subtree(
                t,
                cur as int,
                j,
            ) by {
                lemma_prefix_linear(key_of(t, cur as int), key_of(t, j), pk);
                lemma_reachable_ordered(t, cur as int, j);
            }
        }
        assert(is_prefix_of(vp, key_of(t, cur as int))) by {
            match *loc {
                ViewLoc::Node(_) => {
                    lemma_prefix_refl(vp);
                },
                ViewLoc::Virtual(_, _) => {},
            }
        }
        // the only candidate no longer than the anchor's key is that key
        assert forall|k: Seq<bool>|
            #[trigger] contents(t).contains_key(k) && is_prefix_of(vp, k) && is_prefix_of(k, pk)
                && k.len() <= key_of(t, cur as int).len() implies k == key_of(t, cur as int)
            && (t[cur as int].value is Some) by {
            let j = lemma_has_key_unique(t, k);
            assert(in_subtree(t, loc_idx(*loc), j));
            lemma_subtree_prefix(t, loc_idx(*loc), j);
            assert(is_prefix_of(key_of(t, cur as int), k));
            lemma_prefix_linear(k, key_of(t, cur as int), pk);
            crate::bits::lemma_prefix_antisym(k, key_of(t, cur as int));
            assert(j == cur as int) by {
                assert(reach(t, cur as int) && reach(t, j));
            }
        }
        match best {
            Some(b) => {
                assert(has_key(t, key_of(t, b as int)));
                assert forall|k: Seq<bool>|
                    #[trigger] contents(t).contains_key(k) && is_prefix_of(vp, k)
                        && is_prefix_of(k, pk) && k.len() <= key_of(t, cur as int).len() implies
                    is_prefix_of(k, key_of(t, b as int)) by {
                    lemma_prefix_refl(k);
                }
            },
            None => {},
        }
    }
    loop
        invariant
            t == table.view_nodes(),
            table_wf(t),
            pk == prefix.bits(),
            vp == loc_bits(t, *loc),
            cur < t.len(),
            reach(t, cur as int),
            is_prefix_of(key_of(t, cur as int), pk),
            is_prefix_of(vp, key_of(t, cur as int)),
            covers_anc(t, cur as int, pk),
            match best {
                Some(b) => {
                    &&& (b as int) < t.len()
                    &&& reach(t, b as int)
                    &&& t[b as int].value is Some
                    &&& is_prefix_of(vp, key_of(t, b as int))
                    &&& is_prefix_of(key_of(t, b as int), pk)
                    &&& forall|k: Seq<bool>|
                        #[trigger] contents(t).contains_key(k) && is_prefix_of(vp, k)
                            && is_prefix_of(k, pk) && k.len() <= key_of(t, cur as int).len()
                            ==> is_prefix_of(k, key_of(t, b as int))
                },
                None => forall|k: Seq<bool>|
                    #[trigger] contents(t).contains_key(k) ==> !(is_prefix_of(vp, k)
                        && is_prefix_of(k, pk) && k.len() <= key_of(t, cur as int).len()),
            },
        ensures
            match best {
                Some(b) => {
                    &&& (b as int) < t.len()
                    &&& reach(t, b as int)
                    &&& t[b as int].value is Some
                    &&& is_prefix_of(vp, key_of(t, b as int))
                    &&& is_prefix_of(key_of(t, b as int), pk)
                    &&& forall|k: Seq<bool>|
                        #[trigger] contents(t).contains_key(k) && is_prefix_of(vp, k)
                            && is_prefix_of(k, pk) ==> is_prefix_of(k, key_of(t, b as int))
                },
                None => forall|k: Seq<bool>|
                    #[trigger] contents(t).contains_key(k) ==> !(is_prefix_of(vp, k)
                        && is_prefix_of(k, pk)),
            },
        decreases pk.len() - key_of(t, cur as int).len(),
    {
        let ghost ck = key_of(t, cur as int);
        match table.get_direction(cur, prefix) {
            Direction::Enter { next, right } => {
                proof {
                    lemma_proper_prefix_shorter(ck, pk);
                    lemma_cover_descend(t, pk, cur as int, next as int);
                    lemma_reach_extend(t, cur as int, right, next as int);
                }
                cur = next;
                let ghost old_best = best;
                if table.nodes[cur].value.is_some() {
                    best = Some(cur);
                }
                proof {
                    let nk = key_of(t, cur as int);
                    lemma_prefix_trans(vp, ck, nk);
                    assert(contents(t).contains_key(nk) == (t[cur as int].value is Some)) by {
                        if t[cur as int].value is Some {
                            assert(has_key(t, nk));
                            let iu = lemma_has_key_unique(t, nk);
                            assert(iu == cur as int);
                        } else if contents(t).contains_key(nk) {
                            let iu = lemma_has_key_unique(t, nk);
                            assert(iu == cur as int);
                            assert(false);
                        }
                    }
                    assert forall|k: Seq<bool>|
                        #[trigger] contents(t).contains_key(k) && is_prefix_of(vp, k)
                            && is_prefix_of(k, pk) && k.len() <= nk.len() implies (match best {
                        Some(b) => is_prefix_of(k, key_of(t, b as int)),
                        None => false,
                    }) by {
                        let j = lemma_has_key_unique(t, k);
                        if k.len() <= ck.len() {
                            match old_best {
                                Some(b0) => {
                                    assert(is_prefix_of(k, key_of(t, b0 as int)));
                                    if t[cur as int].value is Some {
                                        lemma_prefix_linear(k, ck, pk);
                                        lemma_prefix_trans(k, ck, nk);
                                    }
                                },
                                None => {},
                            }
                        } else {
                            // k lies strictly between the old and new node:
                            // the covering-walk step says the only such key
                            // is the new node's own
                            assert(j != cur as int ==> key_of(t, j).len() > nk.len());
                            assert(j == cur as int);
                            assert(k == nk);
                            lemma_prefix_refl(k);
                        }
                    }
                }
            },
            Direction::Reached => {
                proof {
                    assert forall|k: Seq<bool>|
                        #[trigger] contents(t).contains_key(k) && is_prefix_of(vp, k)
                            && is_prefix_of(k, pk) implies k.len() <= key_of(
                        t,
                        cur as int,
                    ).len() by {}
                }
                break ;
            },
            Direction::Missing => {
                proof {
                    lemma_proper_prefix_shorter(ck, pk);
                    lemma_cover_stop(t, pk, cur as int);
                    assert forall|k: Seq<bool>|
                        #[trigger] contents(t).contains_key(k) && is_prefix_of(vp, k)
                            && is_prefix_of(k, pk) implies k.len() <= key_of(
                        t,
                        cur as int,
                    ).len() by {
                        let j = lemma_has_key_unique(t, k);
                    }
                }
                break ;
            },
        }
    }
    proof {
        if best is Some {
            assert(contents(t).contains_key(key_of(t, best->0 as int))) by {
                assert(has_key(t, key_of(t, best->0 as int)));
            }
        }
    }
    best
}

/// No stored key can both contain `pk` and extend `vp` when `vp` does not
/// contain `pk`.
proof fn lemma_lpm_out_of_range<P: Prefix, T>(
    t: Seq<crate::inner::Node<P, T>>,
    vp: Seq<bool>,
    pk: Seq<bool>,
)
    requires
        !is_prefix_of(vp, pk),
    ensures
        forall|k: Seq<bool>|
            #[trigger] contents(t).contains_key(k) ==> !(is_prefix_of(vp, k) && is_prefix_of(
                k,
                pk,
            )),
{
    assert forall|k: Seq<bool>| #[trigger] contents(t).contains_key(k) implies !(is_prefix_of(
        vp,
        k,
    ) && is_prefix_of(k, pk)) by {
        if is_prefix_of(vp, k) && is_prefix_of(k, pk) {
            lemma_prefix_trans(vp, k, pk);
        }
    }
}

/// The structural child of a location on one side: all stored keys that
/// extend the location's prefix by the bit `side` lie below it.
fn child_loc<P: Prefix, T>(table: &Table<P, T>, loc: &ViewLoc<P>, side: bool) -> (r: Option<
    usize,
>)
    requires
        table_wf(table.view_nodes()),
        loc_wf(table.view_nodes(), *loc),
    ensures
        ({
            let t = table.view_nodes();
            let pb = loc_bits(t, *loc).push(side);
            match r {
                Some(c) => {
                    &&& (c as int) < t.len()
                    &&& reach(t, c as int)
                    &&& is_prefix_of(pb, key_of(t, c as int))
                    &&& forall|k: Seq<bool>|
                        #[trigger] contents(t).contains_key(k) ==> (is_prefix_of(pb, k)
                            <==> is_prefix_of(key_of(t, c as int), k))
                },
                None => forall|k: Seq<bool>|
                    #[trigger] contents(t).contains_key(k) ==> !is_prefix_of(pb, k),
            }
        }),
{
    let ghost t = table.view_nodes();
    let ghost pb = loc_bits(t, *loc).push(side);
    match loc {
        ViewLoc::Node(i) => {
            let ghost vk = key_of(t, *i as int);
            match table.get_child(*i, side) {
                Some(c) => {
                    proof {
                        assert(is_link(t, *i as int, side, c as int));
                        lemma_reach_extend(t, *i as int, side, c as int);
                        lemma_extend_one(vk, key_of(t, c as int));
                        assert(is_prefix_of(pb, key_of(t, c as int)));
                        assert forall|k: Seq<bool>|
                            #[trigger] contents(t).contains_key(k) implies (is_prefix_of(pb, k)
                            <==> is_prefix_of(key_of(t, c as int), k)) by {
                            let j = lemma_has_key_unique(t, k);
                            if is_prefix_of(pb, k) {
                                assert(is_prefix_of(vk, k)) by {
                                    lemma_prefix_index(pb, k);
                                    crate::bits::lemma_prefix_from_index(vk, k);
                                }
                                lemma_reachable_ordered(t, *i as int, j);
                                assert(j != *i as int) by {
                                    assert(k.len() >= pb.len() > vk.len());
                                }
                                let c2 = lemma_subtree_step(t, *i as int, j);
                                assert(branch_right(vk, key_of(t, j)) == side) by {
                                    lemma_prefix_index(pb, k);
                                }
                                assert(c2 == c as int);
                                lemma_subtree_prefix(t, c as int, j);
                            }
                            if is_prefix_of(key_of(t, c as int), k) {
                                lemma_prefix_trans(pb, key_of(t, c as int), k);
                            }
                        }
                    }
                    Some(c)
                },
                None => {
                    proof {
                        assert forall|k: Seq<bool>|
                            #[trigger] contents(t).contains_key(k) implies !is_prefix_of(
                            pb,
                            k,
                        ) by {
                            let j = lemma_has_key_unique(t, k);
                            if is_prefix_of(pb, k) {
                                assert(is_prefix_of(vk, k)) by {
                                    lemma_prefix_index(pb, k);
                                    crate::bits::lemma_prefix_from_index(vk, k);
                                }
                                lemma_reachable_ordered(t, *i as int, j);
                                assert(j != *i as int) by {
                                    assert(k.len() >= pb.len() > vk.len());
                                }
                                let c2 = lemma_subtree_step(t, *i as int, j);
                                assert(branch_right(vk, key_of(t, j)) == side) by {
                                    lemma_prefix_index(pb, k);
                                }
                            }
                        }
                    }
                    None
                },
            }
        },
        ViewLoc::Virtual(p, i) => {
            let node_side = to_right(p, &table.nodes[*i].prefix);
            proof {
                lemma_extend_one(p.bits(), key_of(t, *i as int));
            }
            if node_side == side {
                proof {
                    assert forall|k: Seq<bool>|
                        #[trigger] contents(t).contains_key(k) implies (is_prefix_of(pb, k)
                        <==> is_prefix_of(key_of(t, *i as int), k)) by {
                        let j = lemma_has_key_unique(t, k);
                        if is_prefix_of(pb, k) {
                            assert(is_prefix_of(p.bits(), k)) by {
                                lemma_prefix_index(pb, k);
                                crate::bits::lemma_prefix_from_index(p.bits(), k);
                            }
                            assert(in_subtree(t, *i as int, j));
                            lemma_subtree_prefix(t, *i as int, j);
                        }
                        if is_prefix_of(key_of(t, *i as int), k) {
                            lemma_prefix_trans(pb, key_of(t, *i as int), k);
                        }
                    }
                }
                Some(*i)
            } else {
                proof {
                    assert forall|k: Seq<bool>|
                        #[trigger] contents(t).contains_key(k) implies !is_prefix_of(pb, k) by {
                        let j = lemma_has_key_unique(t, k);
                        if is_prefix_of(pb, k) {
                            assert(is_prefix_of(p.bits(), k)) by {
                                lemma_prefix_index(pb, k);
                                crate::bits::lemma_prefix_from_index(p.bits(), k);
                            }
                            assert(in_subtree(t, *i as int, j));
                            lemma_subtree_prefix(t, *i as int, j);
                            lemma_prefix_index(pb, k);
                            lemma_prefix_index(key_of(t, *i as int), k);
                        }
                    }
                }
                None
            }
        },
    }
}

/// `b` stands at the same place as `a`: same slot, same prefix bits.
pub(crate) open spec fn loc_like<P: Prefix>(a: ViewLoc<P>, b: ViewLoc<P>) -> bool {
    match (a, b) {
        (ViewLoc::Node(i), ViewLoc::Node(j)) => i == j,
        (ViewLoc::Virtual(p, i), ViewLoc::Virtual(q, j)) => p.bits() == q.bits() && i == j,
        _ => false,
    }
}

/// An independent copy of a location, denoting the same place.
fn dup_loc<P: Prefix>(loc: &ViewLoc<P>) -> (r: ViewLoc<P>)
    ensures
        loc_like(*loc, r),
{
    match loc {
        ViewLoc::Node(i) => ViewLoc::Node(*i),
        ViewLoc::Virtual(p, i) => ViewLoc::Virtual(p.dup(), *i),
    }
}

/// Equal places mean equal prefix, index and well-formedness, whatever the
/// table.
proof fn lemma_loc_like<P: Prefix, T>(
    t: Seq<crate::inner::Node<P, T>>,
    a: ViewLoc<P>,
    b: ViewLoc<P>,
)
    requires
        loc_like(a, b),
    ensures
        loc_idx(a) == loc_idx(b),
        loc_bits(t, a) == loc_bits(t, b),
        loc_wf(t, a) == loc_wf(t, b),
{
}

/// The slot index of a location.
fn loc_index<P>(loc: &ViewLoc<P>) -> (r: usize)
    ensures
        r as int == loc_idx(*loc),
{
    match loc {
        ViewLoc::Node(i) => *i,
        ViewLoc::Virtual(_, i) => *i,
    }
}

/// A read-only view of the subtree of a prefix map at one location.  Views
/// may overlap freely; none can mutate.
pub struct TrieView<'a, P, T> {
    map: &'a PrefixMap<P, T>,
    loc: ViewLoc<P>,
}

impl<'a, P: Prefix, T> TrieView<'a, P, T> {
    /// The view is well formed for the map it borrows.
    pub closed spec fn wf(&self) -> bool {
        self.map.wf() && loc_wf(self.map.table.view_nodes(), self.loc)
    }

    /// The prefix this view stands at.
    pub closed spec fn prefix_bits(&self) -> Seq<bool> {
        loc_bits(self.map.table.view_nodes(), self.loc)
    }

    /// The entries visible through this view: the stored entries whose keys
    /// this view's prefix contains.
    pub closed spec fn as_map(&self) -> Map<Seq<bool>, T> {
        restrict_below(self.map.as_map(), self.prefix_bits())
    }

    /// Find `prefix` within this view, returning the view of exactly the
    /// stored keys `prefix` contains.  `None` when `prefix` falls outside
    /// this view or nothing stored extends it.
    pub fn find(&self, prefix: P) -> (r: Option<TrieView<'a, P, T>>)
        requires
            self.wf(),
        ensures
            match r {
                Some(v) => {
                    &&& v.wf()
                    &&& is_prefix_of(self.prefix_bits(), prefix.bits())
                    &&& v.prefix_bits() == prefix.bits()
                    &&& v.as_map() == restrict_below(self.as_map(), prefix.bits())
                },
                None => is_prefix_of(self.prefix_bits(), prefix.bits()) ==> forall|k: Seq<bool>|
                    #[trigger] self.as_map().contains_key(k) ==> !is_prefix_of(prefix.bits(), k),
            },
    {
        proof {
            self.map.lemma_model();
        }
        let ghost t = self.map.table.view_nodes();
        let ghost pk = prefix.bits();
        let ghost vp = self.prefix_bits();
        let l = dup_loc(&self.loc);
        proof {
            lemma_loc_like(t, self.loc, l);
        }
        match find_loc(&self.map.table, l, prefix) {
            Ok(nl) => {
                let v = TrieView { map: self.map, loc: nl };
                proof {
                    assert(v.as_map() =~= restrict_below(self.as_map(), pk)) by {
                        assert forall|k: Seq<bool>| true implies #[trigger] v.as_map().contains_key(
                            k,
                        ) == restrict_below(self.as_map(), pk).contains_key(k) by {
                            if is_prefix_of(pk, k) {
                                lemma_prefix_trans(vp, pk, k);
                            }
                        }
                    }
                }
                Some(v)
            },
            Err(_) => {
                proof {
                    if is_prefix_of(vp, pk) {
                        assert forall|k: Seq<bool>|
                            #[trigger] self.as_map().contains_key(k) implies !is_prefix_of(
                            pk,
                            k,
                        ) by {}
                    }
                }
                None
            },
        }
    }

    /// Find the stored entry at exactly `prefix` within this view, returning
    /// the view rooted there.
    pub fn find_exact(&self, prefix: &P) -> (r: Option<TrieView<'a, P, T>>)
        requires
            self.wf(),
        ensures
            match r {
                Some(v) => {
                    &&& self.as_map().contains_key(prefix.bits())
                    &&& v.wf()
                    &&& v.prefix_bits() == prefix.bits()
                    &&& v.as_map() == restrict_below(self.as_map(), prefix.bits())
                },
                None => !self.as_map().contains_key(prefix.bits()),
            },
    {
        proof {
            self.map.lemma_model();
        }
        let ghost t = self.map.table.view_nodes();
        let ghost pk = prefix.bits();
        let ghost vp = self.prefix_bits();
        match find_exact_idx(&self.map.table, &self.loc, prefix) {
            Some(i) => {
                let v = TrieView { map: self.map, loc: ViewLoc::Node(i) };
                proof {
                    assert(v.as_map() =~= restrict_below(self.as_map(), pk)) by {
                        assert forall|k: Seq<bool>| true implies #[trigger] v.as_map().contains_key(
                            k,
                        ) == restrict_below(self.as_map(), pk).contains_key(k) by {
                            if is_prefix_of(pk, k) {
                                lemma_prefix_trans(vp, pk, k);
                            }
                        }
                    }
                }
                Some(v)
            },
            None => None,
        }
    }

    /// Find the most specific stored prefix containing `prefix` within this
    /// view — the longest-prefix match — returning the view rooted there.
    pub fn find_lpm(&self, prefix: &P) -> (r: Option<TrieView<'a, P, T>>)
        requires
            self.wf(),
        ensures
            match r {
                Some(v) => {
                    &&& v.wf()
                    &&& self.as_map().contains_key(v.prefix_bits())
                    &&& is_prefix_of(v.prefix_bits(), prefix.bits())
                    &&& v.as_map() == restrict_below(self.as_map(), v.prefix_bits())
                    &&& forall|k: Seq<bool>|
                        #[trigger] self.as_map().contains_key(k) && is_prefix_of(k, prefix.bits())
                            ==> is_prefix_of(k, v.prefix_bits())
                },
                None => forall|k: Seq<bool>|
                    #[trigger] self.as_map().contains_key(k) ==> !is_prefix_of(k, prefix.bits()),
            },
    {
        proof {
            self.map.lemma_model();
        }
        let ghost t = self.map.table.view_nodes();
        let ghost pk = prefix.bits();
        let ghost vp = self.prefix_bits();
        match find_lpm_idx(&self.map.table, &self.loc, prefix) {
            Some(b) => {
                let v = TrieView { map: self.map, loc: ViewLoc::Node(b) };
                proof {
                    assert(v.as_map() =~= restrict_below(self.as_map(), v.prefix_bits())) by {
                        assert forall|k: Seq<bool>| true implies #[trigger] v.as_map().contains_key(
                            k,
                        ) == restrict_below(self.as_map(), v.prefix_bits()).contains_key(k) by {
                            if is_prefix_of(v.prefix_bits(), k) {
                                lemma_prefix_trans(vp, v.prefix_bits(), k);
                            }
                        }
                    }
                }
                Some(v)
            },
            None => None,
        }
    }

    /// The view of the left branch: all visible keys extending this view's
    /// prefix with a 0 bit.
    pub fn left(&self) -> (r: Option<TrieView<'a, P, T>>)
        requires
            self.wf(),
        ensures
            match r {
                Some(v) => v.wf() && v.as_map() == restrict_below(
                    self.as_map(),
                    self.prefix_bits().push(false),
                ),
                None => forall|k: Seq<bool>|
                    #[trigger] self.as_map().contains_key(k) ==> !is_prefix_of(
                        self.prefix_bits().push(false),
                        k,
                    ),
            },
    {
        self.branch(false)
    }

    /// The view of the right branch: all visible keys extending this view's
    /// prefix with a 1 bit.
    pub fn right(&self) -> (r: Option<TrieView<'a, P, T>>)
        requires
            self.wf(),
        ensures
            match r {
                Some(v) => v.wf() && v.as_map() == restrict_below(
                    self.as_map(),
                    self.prefix_bits().push(true),
                ),
                None => forall|k: Seq<bool>|
                    #[trigger] self.as_map().contains_key(k) ==> !is_prefix_of(
                        self.prefix_bits().push(true),
                        k,
                    ),
            },
    {
        self.branch(true)
    }

    /// The branch of this view on the given side.
    fn branch(&self, side: bool) -> (r: Option<TrieView<'a, P, T>>)
        requires
            self.wf(),
        ensures
            match r {
                Some(v) => v.wf() && v.as_map() == restrict_below(
                    self.as_map(),
                    self.prefix_bits().push(side),
                ),
                None => forall|k: Seq<bool>|
                    #[trigger] self.as_map().contains_key(k) ==> !is_prefix_of(
                        self.prefix_bits().push(side),
                        k,
                    ),
            },
    {
        proof {
            self.map.lemma_model();
        }
        let ghost t = self.map.table.view_nodes();
        let ghost vp = self.prefix_bits();
        let ghost pb = vp.push(side);
        match child_loc(&self.map.table, &self.loc, side) {
            Some(c) => {
                let v = TrieView { map: self.map, loc: ViewLoc::Node(c) };
                proof {
                    lemma_push_is_prefix(vp, side);
                    assert(v.as_map() =~= restrict_below(self.as_map(), pb)) by {
                        assert forall|k: Seq<bool>| true implies #[trigger] v.as_map().contains_key(
                            k,
                        ) == restrict_below(self.as_map(), pb).contains_key(k) by {
                            if self.map.as_map().contains_key(k) {
                                if is_prefix_of(key_of(t, c as int), k) {
                                    lemma_prefix_trans(pb, key_of(t, c as int), k);
                                    lemma_prefix_trans(vp, pb, k);
                                }
                                if is_prefix_of(pb, k) {
                                    lemma_prefix_trans(vp, pb, k);
                                }
                            }
                        }
                    }
                }
                Some(v)
            },
            None => None,
        }
    }

    /// An iterator over all entries visible through this view, in ascending
    /// lexicographic order.
    pub fn iter(&self) -> (r: Iter<'a, P, T>)
        requires
            self.wf(),
        ensures
            r.wf(),
            entries_match(self.as_map(), r.remaining()),
    {
        let idx = loc_index(&self.loc);
        proof {
            self.map.lemma_model();
            lemma_loc_captures(self.map.table.view_nodes(), self.loc);
        }
        self.map.subtree_iter(Some(idx), Ghost(self.prefix_bits()))
    }

    /// An iterator over the visible prefixes, in ascending lexicographic
    /// order.
    pub fn keys(&self) -> (r: Keys<'a, P, T>)
        requires
            self.wf(),
        ensures
            r.wf(),
            entries_match(self.as_map(), r.remaining()),
    {
        let r = Keys { inner: self.iter() };
        proof {
            r.lemma_wrap();
        }
        r
    }

    /// An iterator over the visible values, in ascending lexicographic order
    /// of their prefixes.
    pub fn values(&self) -> (r: Values<'a, P, T>)
        requires
            self.wf(),
        ensures
            r.wf(),
            entries_match(self.as_map(), r.remaining()),
    {
        let r = Values { inner: self.iter() };
        proof {
            r.lemma_wrap();
        }
        r
    }

    /// The prefix this view stands at (which need not itself be stored).
    pub fn prefix(&self) -> (r: &P)
        requires
            self.wf(),
        ensures
            r.bits() == self.prefix_bits(),
    {
        match &self.loc {
            ViewLoc::Node(i) => &self.map.table.nodes[*i].prefix,
            ViewLoc::Virtual(p, _) => p,
        }
    }

    /// The value stored at exactly this view's prefix, if any.
    pub fn value(&self) -> (r: Option<&'a T>)
        requires
            self.wf(),
        ensures
            match r {
                Some(v) => self.as_map().contains_key(self.prefix_bits()) && *v == self.as_map()[
                    self.prefix_bits()],
                None => !self.as_map().contains_key(self.prefix_bits()),
            },
    {
        let ghost t = self.map.table.view_nodes();
        let ghost vp = self.prefix_bits();
        proof {
            self.map.lemma_model();
            lemma_prefix_refl(vp);
        }
        match &self.loc {
            ViewLoc::Node(i) => {
                proof {
                    lemma_own_value_unique(t, *i as int);
                }
                self.map.table.nodes[*i].value.as_ref()
            },
            ViewLoc::Virtual(p, _) => {
                proof {
                    if contents(t).contains_key(vp) {
                        let j = lemma_has_key_unique(t, vp);
                    }
                }
                None
            },
        }
    }

    /// The prefix and value stored at exactly this view's prefix, if any.
    pub fn prefix_value(&self) -> (r: Option<(&'a P, &'a T)>)
        requires
            self.wf(),
        ensures
            match r {
                Some(pv) => {
                    &&& self.as_map().contains_key(self.prefix_bits())
                    &&& pv.0.bits() == self.prefix_bits()
                    &&& *pv.1 == self.as_map()[self.prefix_bits()]
                },
                None => !self.as_map().contains_key(self.prefix_bits()),
            },
    {
        let ghost t = self.map.table.view_nodes();
        let ghost vp = self.prefix_bits();
        proof {
            self.map.lemma_model();
            lemma_prefix_refl(vp);
        }
        match &self.loc {
            ViewLoc::Node(i) => {
                proof {
                    lemma_own_value_unique(t, *i as int);
                }
                let node = &self.map.table.nodes[*i];
                match node.value.as_ref() {
                    Some(v) => Some((&node.prefix, v)),
                    None => None,
                }
            },
            ViewLoc::Virtual(p, _) => {
                proof {
                    if contents(t).contains_key(vp) {
                        let j = lemma_has_key_unique(t, vp);
                    }
                }
                None
            },
        }
    }
}

/// A value-only change of shape-equal tables preserves a location's
/// well-formedness and prefix.
proof fn lemma_loc_wf_same_shape<P: Prefix, T>(
    t1: Seq<crate::inner::Node<P, T>>,
    t2: Seq<crate::inner::Node<P, T>>,
    loc: ViewLoc<P>,
)
    requires
        crate::inner::table_wf(t1),
        crate::inner::same_shape(t1, t2),
        loc_wf(t1, loc),
    ensures
        loc_wf(t2, loc),
        loc_bits(t2, loc) == loc_bits(t1, loc),
{
    crate::inner::lemma_same_shape_links(t1, t2);
    assert forall|j: int| 0 <= j < t2.len() implies #[trigger] reach(t2, j) == reach(t1, j)
        && key_of(t2, j) == key_of(t1, j) by {
        crate::inner::lemma_same_shape_reach(t1, t2, j);
        assert(t2[j].left == t1[j].left && t2[j].right == t1[j].right && key_of(t2, j) == key_of(
            t1,
            j,
        ));
    }
    match loc {
        ViewLoc::Node(_) => {},
        ViewLoc::Virtual(p, i) => {
            assert forall|j: int|
                0 <= j < t2.len() && #[trigger] reach(t2, j) && is_prefix_of(
                    p.bits(),
                    key_of(t2, j),
                ) implies in_subtree(t2, i as int, j) by {
                crate::inner::lemma_same_shape_subtree(t1, t2, i as int, j);
            }
        },
    }
}

/// Extending a bit string keeps it as an initial segment.
proof fn lemma_push_is_prefix(p: Seq<bool>, s: bool)
    ensures
        is_prefix_of(p, p.push(s)),
{
    assert(p =~= p.push(s).take(p.len() as int));
}

/// A reachable slot holds a value exactly when the contents hold its key,
/// and then they agree.
proof fn lemma_own_value_unique<P: Prefix, T>(t: Seq<crate::inner::Node<P, T>>, i: int)
    requires
        table_wf(t),
        0 <= i < t.len(),
        reach(t, i),
    ensures
        contents(t).contains_key(key_of(t, i)) == (t[i].value is Some),
        t[i].value is Some ==> contents(t)[key_of(t, i)] == t[i].value->0,
{
    if t[i].value is Some {
        assert(has_key(t, key_of(t, i)));
        let iu = lemma_has_key_unique(t, key_of(t, i));
        assert(iu == i);
    } else {
        if contents(t).contains_key(key_of(t, i)) {
            let iu = lemma_has_key_unique(t, key_of(t, i));
            assert(iu == i);
            assert(false);
        }
    }
}

impl<P: Prefix, T> PrefixMap<P, T> {
    /// A view of the whole map, rooted at the identity prefix.
    pub fn view(&self) -> (r: TrieView<'_, P, T>)
        requires
            self.wf(),
        ensures
            r.wf(),
            r.prefix_bits().len() == 0,
            r.as_map() == self.as_map(),
    {
        let r = TrieView { map: self, loc: ViewLoc::Node(0) };
        proof {
            self.lemma_model();
            let t = self.table.view_nodes();
            assert(reach(t, 0));
            assert(r.as_map() =~= self.as_map()) by {
                assert forall|k: Seq<bool>| true implies #[trigger] r.as_map().contains_key(k)
                    == self.as_map().contains_key(k) by {
                    assert(key_of(t, 0) =~= k.take(0));
                }
            }
        }
        r
    }

    /// A view rooted at `prefix`, when the map stores anything below it.
    pub fn view_at(&self, prefix: P) -> (r: Option<TrieView<'_, P, T>>)
        requires
            self.wf(),
        ensures
            match r {
                Some(v) => {
                    &&& v.wf()
                    &&& v.prefix_bits() == prefix.bits()
                    &&& v.as_map() == restrict_below(self.as_map(), prefix.bits())
                },
                None => forall|k: Seq<bool>|
                    #[trigger] self.as_map().contains_key(k) ==> !is_prefix_of(prefix.bits(), k),
            },
    {
        let ghost pk = prefix.bits();
        let v0 = self.view();
        proof {
            assert(is_prefix_of(v0.prefix_bits(), pk)) by {
                assert(v0.prefix_bits() =~= pk.take(0));
            }
        }
        let r = v0.find(prefix);
        proof {
            match &r {
                Some(v) => {
                    assert(v.as_map() =~= restrict_below(self.as_map(), pk));
                },
                None => {},
            }
        }
        r
    }
}

/// Anything that yields a read-only view: a whole map, or a view itself.
pub trait AsView<'a, P: Prefix, T>: Sized {
    /// Whether a view may be taken.
    spec fn viewable(self) -> bool;

    /// The entries the view will show.
    spec fn target(self) -> Map<Seq<bool>, T>;

    /// The prefix the whole target sits below.
    spec fn base(self) -> Seq<bool>;

    /// The view of the whole target.
    fn view(self) -> (r: TrieView<'a, P, T>)
        requires
            self.viewable(),
        ensures
            r.wf(),
            r.as_map() == self.target(),
    ;

    /// The view rooted at `prefix`: exactly the stored keys it contains,
    /// when anything is stored below it.
    fn view_at(self, prefix: P) -> (r: Option<TrieView<'a, P, T>>)
        requires
            self.viewable(),
        ensures
            match r {
                Some(v) => v.wf() && v.as_map() == restrict_below(self.target(), prefix.bits()),
                None => is_prefix_of(self.base(), prefix.bits()) ==> forall|k: Seq<bool>|
                    #[trigger] self.target().contains_key(k) ==> !is_prefix_of(prefix.bits(), k),
            },
    ;
}

impl<'a, P: Prefix, T> AsView<'a, P, T> for &'a PrefixMap<P, T> {
    open spec fn viewable(self) -> bool {
        self.wf()
    }

    open spec fn target(self) -> Map<Seq<bool>, T> {
        self.as_map()
    }

    open spec fn base(self) -> Seq<bool> {
        Seq::empty()
    }

    fn view(self) -> (r: TrieView<'a, P, T>) {
        self.view()
    }

    fn view_at(self, prefix: P) -> (r: Option<TrieView<'a, P, T>>) {
        self.view_at(prefix)
    }
}

impl<'a, P: Prefix, T> AsView<'a, P, T> for TrieView<'a, P, T> {
    open spec fn viewable(self) -> bool {
        self.wf()
    }

    open spec fn target(self) -> Map<Seq<bool>, T> {
        self.as_map()
    }

    open spec fn base(self) -> Seq<bool> {
        self.prefix_bits()
    }

    fn view(self) -> (r: TrieView<'a, P, T>) {
        self
    }

    fn view_at(self, prefix: P) -> (r: Option<TrieView<'a, P, T>>) {
        self.find(prefix)
    }
}

/// Anything that yields a mutable cursor over its whole target.
pub trait AsViewMut<P: Prefix, T>: Sized {
    /// Whether a cursor may be taken.
    spec fn mut_viewable(self) -> bool;

    /// The map the cursor will belong to.
    spec fn source(self) -> PrefixMap<P, T>;

    /// The cursor over the whole source.
    fn view_mut(self) -> (r: TrieViewMut<P, T>)
        requires
            self.mut_viewable(),
        ensures
            r.valid(self.source()),
            r.as_map(self.source()) == self.source().as_map(),
    ;
}

impl<'a, P: Prefix, T> AsViewMut<P, T> for &'a PrefixMap<P, T> {
    open spec fn mut_viewable(self) -> bool {
        self.wf()
    }

    open spec fn source(self) -> PrefixMap<P, T> {
        *self
    }

    fn view_mut(self) -> (r: TrieViewMut<P, T>) {
        self.view_mut()
    }
}

/// A mutable cursor over a subtree of a prefix map.  The cursor itself holds
/// no borrow; each operation takes the map it was created from.  Every
/// operation that moves to a child consumes the cursor, so the two cursors
/// returned by [`TrieViewMut::split`] always govern disjoint key sets.
pub struct TrieViewMut<P, T> {
    loc: ViewLoc<P>,
    _values: core::marker::PhantomData<T>,
}

impl<P: Prefix, T> TrieViewMut<P, T> {
    /// The cursor is well formed for the given map.
    pub closed spec fn valid(&self, m: PrefixMap<P, T>) -> bool {
        m.wf() && loc_wf(m.table.view_nodes(), self.loc)
    }

    /// The prefix this cursor stands at.
    pub closed spec fn prefix_bits(&self, m: PrefixMap<P, T>) -> Seq<bool> {
        loc_bits(m.table.view_nodes(), self.loc)
    }

    /// The entries this cursor governs: the stored entries whose keys its
    /// prefix contains.
    pub closed spec fn as_map(&self, m: PrefixMap<P, T>) -> Map<Seq<bool>, T> {
        restrict_below(m.as_map(), self.prefix_bits(m))
    }

    /// A read-only view of the same subtree.
    pub fn view<'a>(&self, m: &'a PrefixMap<P, T>) -> (r: TrieView<'a, P, T>)
        requires
            self.valid(*m),
        ensures
            r.wf(),
            r.prefix_bits() == self.prefix_bits(*m),
            r.as_map() == self.as_map(*m),
    {
        let l = dup_loc(&self.loc);
        proof {
            lemma_loc_like(m.table.view_nodes(), self.loc, l);
        }
        TrieView { map: m, loc: l }
    }

    /// Find `prefix` within this cursor's subtree, consuming the cursor; on
    /// failure the cursor comes back unchanged.
    pub fn find(self, m: &PrefixMap<P, T>, prefix: P) -> (r: Result<Self, Self>)
        requires
            self.valid(*m),
        ensures
            match r {
                Ok(v) => {
                    &&& v.valid(*m)
                    &&& is_prefix_of(self.prefix_bits(*m), prefix.bits())
                    &&& v.prefix_bits(*m) == prefix.bits()
                    &&& v.as_map(*m) == restrict_below(self.as_map(*m), prefix.bits())
                },
                Err(v) => {
                    &&& v == self
                    &&& is_prefix_of(self.prefix_bits(*m), prefix.bits()) ==> forall|k: Seq<bool>|
                        #[trigger] self.as_map(*m).contains_key(k) ==> !is_prefix_of(
                            prefix.bits(),
                            k,
                        )
                },
            },
    {
        proof {
            m.lemma_model();
        }
        let ghost t = m.table.view_nodes();
        let ghost pk = prefix.bits();
        let ghost vp = self.prefix_bits(*m);
        let TrieViewMut { loc, _values } = self;
        match find_loc(&m.table, loc, prefix) {
            Ok(nl) => {
                let v = TrieViewMut { loc: nl, _values: core::marker::PhantomData };
                proof {
                    assert(v.as_map(*m) =~= restrict_below(self.as_map(*m), pk)) by {
                        assert forall|k: Seq<bool>| true implies #[trigger] v.as_map(
                            *m,
                        ).contains_key(k) == restrict_below(self.as_map(*m), pk).contains_key(
                            k,
                        ) by {
                            if is_prefix_of(pk, k) {
                                lemma_prefix_trans(vp, pk, k);
                            }
                        }
                    }
                }
                Ok(v)
            },
            Err(l) => {
                Err(TrieViewMut { loc: l, _values: core::marker::PhantomData })
            },
        }
    }

    /// Find the stored entry at exactly `prefix` within this cursor's
    /// subtree, consuming the cursor; on failure the cursor comes back.
    pub fn find_exact(self, m: &PrefixMap<P, T>, prefix: &P) -> (r: Result<Self, Self>)
        requires
            self.valid(*m),
        ensures
            match r {
                Ok(v) => {
                    &&& self.as_map(*m).contains_key(prefix.bits())
                    &&& v.valid(*m)
                    &&& v.prefix_bits(*m) == prefix.bits()
                    &&& v.as_map(*m) == restrict_below(self.as_map(*m), prefix.bits())
                },
                Err(v) => v == self && !self.as_map(*m).contains_key(prefix.bits()),
            },
    {
        proof {
            m.lemma_model();
        }
        let ghost pk = prefix.bits();
        let ghost vp = self.prefix_bits(*m);
        match find_exact_idx(&m.table, &self.loc, prefix) {
            Some(i) => {
                let v = TrieViewMut {
                    loc: ViewLoc::Node(i),
                    _values: core::marker::PhantomData,
                };
                proof {
                    assert(v.as_map(*m) =~= restrict_below(self.as_map(*m), pk)) by {
                        assert forall|k: Seq<bool>| true implies #[trigger] v.as_map(
                            *m,
                        ).contains_key(k) == restrict_below(self.as_map(*m), pk).contains_key(
                            k,
                        ) by {
                            if is_prefix_of(pk, k) {
                                lemma_prefix_trans(vp, pk, k);
                            }
                        }
                    }
                }
                Ok(v)
            },
            None => Err(self),
        }
    }

    /// Find the longest stored prefix containing `prefix` within this
    /// cursor's subtree, consuming the cursor; on failure the cursor comes
    /// back.
    pub fn find_lpm(self, m: &PrefixMap<P, T>, prefix: &P) -> (r: Result<Self, Self>)
        requires
            self.valid(*m),
        ensures
            match r {
                Ok(v) => {
                    &&& v.valid(*m)
                    &&& self.as_map(*m).contains_key(v.prefix_bits(*m))
                    &&& is_prefix_of(v.prefix_bits(*m), prefix.bits())
                    &&& v.as_map(*m) == restrict_below(self.as_map(*m), v.prefix_bits(*m))
                    &&& forall|k: Seq<bool>|
                        #[trigger] self.as_map(*m).contains_key(k) && is_prefix_of(
                            k,
                            prefix.bits(),
                        ) ==> is_prefix_of(k, v.prefix_bits(*m))
                },
                Err(v) => {
                    &&& v == self
                    &&& forall|k: Seq<bool>|
                        #[trigger] self.as_map(*m).contains_key(k) ==> !is_prefix_of(
                            k,
                            prefix.bits(),
                        )
                },
            },
    {
        proof {
            m.lemma_model();
        }
        let ghost vp = self.prefix_bits(*m);
        match find_lpm_idx(&m.table, &self.loc, prefix) {
            Some(b) => {
                let v = TrieViewMut {
                    loc: ViewLoc::Node(b),
                    _values: core::marker::PhantomData,
                };
                proof {
                    assert(v.as_map(*m) =~= restrict_below(self.as_map(*m), v.prefix_bits(*m)))
                        by {
                        assert forall|k: Seq<bool>| true implies #[trigger] v.as_map(
                            *m,
                        ).contains_key(k) == restrict_below(
                            self.as_map(*m),
                            v.prefix_bits(*m),
                        ).contains_key(k) by {
                            if is_prefix_of(v.prefix_bits(*m), k) {
                                lemma_prefix_trans(vp, v.prefix_bits(*m), k);
                            }
                        }
                    }
                }
                Ok(v)
            },
            None => Err(self),
        }
    }

    /// Move to the left branch, consuming the cursor; on failure the cursor
    /// comes back.
    pub fn left(self, m: &PrefixMap<P, T>) -> (r: Result<Self, Self>)
        requires
            self.valid(*m),
        ensures
            match r {
                Ok(v) => v.valid(*m) && v.as_map(*m) == restrict_below(
                    self.as_map(*m),
                    self.prefix_bits(*m).push(false),
                ),
                Err(v) => {
                    &&& v == self
                    &&& forall|k: Seq<bool>|
                        #[trigger] self.as_map(*m).contains_key(k) ==> !is_prefix_of(
                            self.prefix_bits(*m).push(false),
                            k,
                        )
                },
            },
    {
        self.branch(m, false)
    }

    /// Move to the right branch, consuming the cursor; on failure the cursor
    /// comes back.
    pub fn right(self, m: &PrefixMap<P, T>) -> (r: Result<Self, Self>)
        requires
            self.valid(*m),
        ensures
            match r {
                Ok(v) => v.valid(*m) && v.as_map(*m) == restrict_below(
                    self.as_map(*m),
                    self.prefix_bits(*m).push(true),
                ),
                Err(v) => {
                    &&& v == self
                    &&& forall|k: Seq<bool>|
                        #[trigger] self.as_map(*m).contains_key(k) ==> !is_prefix_of(
                            self.prefix_bits(*m).push(true),
                            k,
                        )
                },
            },
    {
        self.branch(m, true)
    }

    /// Move to the branch on the given side.
    fn branch(self, m: &PrefixMap<P, T>, side: bool) -> (r: Result<Self, Self>)
        requires
            self.valid(*m),
        ensures
            match r {
                Ok(v) => v.valid(*m) && v.as_map(*m) == restrict_below(
                    self.as_map(*m),
                    self.prefix_bits(*m).push(side),
                ),
                Err(v) => {
                    &&& v == self
                    &&& forall|k: Seq<bool>|
                        #[trigger] self.as_map(*m).contains_key(k) ==> !is_prefix_of(
                            self.prefix_bits(*m).push(side),
                            k,
                        )
                },
            },
    {
        proof {
            m.lemma_model();
        }
        let ghost t = m.table.view_nodes();
        let ghost vp = self.prefix_bits(*m);
        let ghost pb = vp.push(side);
        match child_loc(&m.table, &self.loc, side) {
            Some(c) => {
                let v = TrieViewMut {
                    loc: ViewLoc::Node(c),
                    _values: core::marker::PhantomData,
                };
                proof {
                    lemma_push_is_prefix(vp, side);
                    assert(v.as_map(*m) =~= restrict_below(self.as_map(*m), pb)) by {
                        assert forall|k: Seq<bool>| true implies #[trigger] v.as_map(
                            *m,
                        ).contains_key(k) == restrict_below(self.as_map(*m), pb).contains_key(
                            k,
                        ) by {
                            if m.as_map().contains_key(k) {
                                if is_prefix_of(key_of(t, c as int), k) {
                                    lemma_prefix_trans(pb, key_of(t, c as int), k);
                                    lemma_prefix_trans(vp, pb, k);
                                }
                                if is_prefix_of(pb, k) {
                                    lemma_prefix_trans(vp, pb, k);
                                }
                            }
                        }
                    }
                }
                Ok(v)
            },
            None => Err(self),
        }
    }

    /// Whether this cursor has a left branch.  When it does not, no stored
    /// key extends the cursor's prefix with a 0 bit.
    pub fn has_left(&self, m: &PrefixMap<P, T>) -> (r: bool)
        requires
            self.valid(*m),
        ensures
            !r ==> forall|k: Seq<bool>|
                #[trigger] self.as_map(*m).contains_key(k) ==> !is_prefix_of(
                    self.prefix_bits(*m).push(false),
                    k,
                ),
    {
        proof {
            m.lemma_model();
        }
        child_loc(&m.table, &self.loc, false).is_some()
    }

    /// Whether this cursor has a right branch.  When it does not, no stored
    /// key extends the cursor's prefix with a 1 bit.
    pub fn has_right(&self, m: &PrefixMap<P, T>) -> (r: bool)
        requires
            self.valid(*m),
        ensures
            !r ==> forall|k: Seq<bool>|
                #[trigger] self.as_map(*m).contains_key(k) ==> !is_prefix_of(
                    self.prefix_bits(*m).push(true),
                    k,
                ),
    {
        proof {
            m.lemma_model();
        }
        child_loc(&m.table, &self.loc, true).is_some()
    }

    /// Split the cursor into the cursors of its two branches.  The parent is
    /// consumed, so the two returned cursors are the only ones governing the
    /// subtree, and their key sets are disjoint.
    pub fn split(self, m: &PrefixMap<P, T>) -> (r: (Option<Self>, Option<Self>))
        requires
            self.valid(*m),
        ensures
            match r.0 {
                Some(l) => l.valid(*m) && l.as_map(*m) == restrict_below(
                    self.as_map(*m),
                    self.prefix_bits(*m).push(false),
                ),
                None => forall|k: Seq<bool>|
                    #[trigger] self.as_map(*m).contains_key(k) ==> !is_prefix_of(
                        self.prefix_bits(*m).push(false),
                        k,
                    ),
            },
            match r.1 {
                Some(rt) => rt.valid(*m) && rt.as_map(*m) == restrict_below(
                    self.as_map(*m),
                    self.prefix_bits(*m).push(true),
                ),
                None => forall|k: Seq<bool>|
                    #[trigger] self.as_map(*m).contains_key(k) ==> !is_prefix_of(
                        self.prefix_bits(*m).push(true),
                        k,
                    ),
            },
    {
        proof {
            m.lemma_model();
        }
        let ghost t = m.table.view_nodes();
        let ghost vp = self.prefix_bits(*m);
        let lc = child_loc(&m.table, &self.loc, false);
        let rc = child_loc(&m.table, &self.loc, true);
        let lv = match lc {
            Some(c) => {
                let v = TrieViewMut::<P, T> {
                    loc: ViewLoc::Node(c),
                    _values: core::marker::PhantomData,
                };
                proof {
                    lemma_push_is_prefix(vp, false);
                    assert(v.as_map(*m) =~= restrict_below(self.as_map(*m), vp.push(false)))
                        by {
                        assert forall|k: Seq<bool>| true implies #[trigger] v.as_map(
                            *m,
                        ).contains_key(k) == restrict_below(
                            self.as_map(*m),
                            vp.push(false),
                        ).contains_key(k) by {
                            if m.as_map().contains_key(k) {
                                if is_prefix_of(key_of(t, c as int), k) {
                                    lemma_prefix_trans(vp.push(false), key_of(t, c as int), k);
                                    lemma_prefix_trans(vp, vp.push(false), k);
                                }
                                if is_prefix_of(vp.push(false), k) {
                                    lemma_prefix_trans(vp, vp.push(false), k);
                                }
                            }
                        }
                    }
                }
                Some(v)
            },
            None => None,
        };
        let rv = match rc {
            Some(c) => {
                let v = TrieViewMut::<P, T> {
                    loc: ViewLoc::Node(c),
                    _values: core::marker::PhantomData,
                };
                proof {
                    lemma_push_is_prefix(vp, true);
                    assert(v.as_map(*m) =~= restrict_below(self.as_map(*m), vp.push(true))) by {
                        assert forall|k: Seq<bool>| true implies #[trigger] v.as_map(
                            *m,
                        ).contains_key(k) == restrict_below(
                            self.as_map(*m),
                            vp.push(true),
                        ).contains_key(k) by {
                            if m.as_map().contains_key(k) {
                                if is_prefix_of(key_of(t, c as int), k) {
                                    lemma_prefix_trans(vp.push(true), key_of(t, c as int), k);
                                    lemma_prefix_trans(vp, vp.push(true), k);
                                }
                                if is_prefix_of(vp.push(true), k) {
                                    lemma_prefix_trans(vp, vp.push(true), k);
                                }
                            }
                        }
                    }
                }
                Some(v)
            },
            None => None,
        };
        (lv, rv)
    }

    /// An iterator over all entries this cursor governs, in ascending
    /// lexicographic order.
    pub fn iter<'a>(&self, m: &'a PrefixMap<P, T>) -> (r: Iter<'a, P, T>)
        requires
            self.valid(*m),
        ensures
            r.wf(),
            entries_match(self.as_map(*m), r.remaining()),
    {
        let idx = loc_index(&self.loc);
        proof {
            m.lemma_model();
            lemma_loc_captures(m.table.view_nodes(), self.loc);
        }
        m.subtree_iter(Some(idx), Ghost(self.prefix_bits(*m)))
    }

    /// A mutable iterator over all entries this cursor governs, in ascending
    /// lexicographic order.
    pub fn iter_mut(&self, m: &PrefixMap<P, T>) -> (r: crate::map::iter::IterMut<P, T>)
        requires
            self.valid(*m),
        ensures
            r.valid(*m),
            forall|q: int|
                0 <= q < r.remaining(*m).len() ==> self.as_map(*m).contains_key(
                    #[trigger] r.remaining(*m)[q],
                ),
            forall|k: Seq<bool>|
                #[trigger] self.as_map(*m).contains_key(k) ==> exists|q: int|
                    0 <= q < r.remaining(*m).len() && #[trigger] r.remaining(*m)[q] == k,
            forall|q1: int, q2: int|
                0 <= q1 < q2 < r.remaining(*m).len() ==> crate::bits::lex_lt(
                    #[trigger] r.remaining(*m)[q1],
                    #[trigger] r.remaining(*m)[q2],
                ),
    {
        let idx = loc_index(&self.loc);
        proof {
            m.lemma_model();
            lemma_loc_captures(m.table.view_nodes(), self.loc);
        }
        m.iter_mut_seeded(Some(idx), Ghost(self.prefix_bits(*m)))
    }

    /// A mutable iterator over the governed values, in ascending
    /// lexicographic order of their prefixes.
    pub fn values_mut(&self, m: &PrefixMap<P, T>) -> (r: crate::map::iter::ValuesMut<P, T>)
        requires
            self.valid(*m),
        ensures
            r.valid(*m),
            forall|q: int|
                0 <= q < r.remaining(*m).len() ==> self.as_map(*m).contains_key(
                    #[trigger] r.remaining(*m)[q],
                ),
            forall|k: Seq<bool>|
                #[trigger] self.as_map(*m).contains_key(k) ==> exists|q: int|
                    0 <= q < r.remaining(*m).len() && #[trigger] r.remaining(*m)[q] == k,
            forall|q1: int, q2: int|
                0 <= q1 < q2 < r.remaining(*m).len() ==> crate::bits::lex_lt(
                    #[trigger] r.remaining(*m)[q1],
                    #[trigger] r.remaining(*m)[q2],
                ),
    {
        let r = crate::map::iter::ValuesMut::wrap(self.iter_mut(m));
        proof {
            assert forall|k: Seq<bool>|
                #[trigger] self.as_map(*m).contains_key(k) implies exists|q: int|
                0 <= q < r.remaining(*m).len() && #[trigger] r.remaining(*m)[q] == k by {
                let q = choose|q: int|
                    0 <= q < r.inner_iter().remaining(*m).len()
                        && #[trigger] r.inner_iter().remaining(*m)[q] == k;
                assert(r.remaining(*m)[q] == k);
            }
        }
        r
    }

    /// An iterator over the governed prefixes, in ascending lexicographic
    /// order.
    pub fn keys<'a>(&self, m: &'a PrefixMap<P, T>) -> (r: Keys<'a, P, T>)
        requires
            self.valid(*m),
        ensures
            r.wf(),
            entries_match(self.as_map(*m), r.remaining()),
    {
        let r = Keys { inner: self.iter(m) };
        proof {
            r.lemma_wrap();
        }
        r
    }

    /// An iterator over the governed values, in ascending lexicographic
    /// order of their prefixes.
    pub fn values<'a>(&self, m: &'a PrefixMap<P, T>) -> (r: Values<'a, P, T>)
        requires
            self.valid(*m),
        ensures
            r.wf(),
            entries_match(self.as_map(*m), r.remaining()),
    {
        let r = Values { inner: self.iter(m) };
        proof {
            r.lemma_wrap();
        }
        r
    }

    /// The prefix this cursor stands at (which need not itself be stored).
    pub fn prefix<'a>(&'a self, m: &'a PrefixMap<P, T>) -> (r: &'a P)
        requires
            self.valid(*m),
        ensures
            r.bits() == self.prefix_bits(*m),
    {
        match &self.loc {
            ViewLoc::Node(i) => &m.table.nodes[*i].prefix,
            ViewLoc::Virtual(p, _) => p,
        }
    }

    /// The value stored at exactly this cursor's prefix, if any.
    pub fn value<'a>(&self, m: &'a PrefixMap<P, T>) -> (r: Option<&'a T>)
        requires
            self.valid(*m),
        ensures
            match r {
                Some(v) => self.as_map(*m).contains_key(self.prefix_bits(*m)) && *v
                    == self.as_map(*m)[self.prefix_bits(*m)],
                None => !self.as_map(*m).contains_key(self.prefix_bits(*m)),
            },
    {
        let v = self.view(m);
        v.value()
    }

    /// The prefix and value stored at exactly this cursor's prefix, if any.
    pub fn prefix_value<'a>(&self, m: &'a PrefixMap<P, T>) -> (r: Option<(&'a P, &'a T)>)
        requires
            self.valid(*m),
        ensures
            match r {
                Some(pv) => {
                    &&& self.as_map(*m).contains_key(self.prefix_bits(*m))
                    &&& pv.0.bits() == self.prefix_bits(*m)
                    &&& *pv.1 == self.as_map(*m)[self.prefix_bits(*m)]
                },
                None => !self.as_map(*m).contains_key(self.prefix_bits(*m)),
            },
    {
        let v = self.view(m);
        v.prefix_value()
    }

    /// Get a mutable reference to the value stored at exactly this cursor's
    /// prefix, if any.  The final contents bind the prefix to whatever the
    /// caller leaves in the returned reference.
    pub fn value_mut<'a>(&self, m: &'a mut PrefixMap<P, T>) -> (r: Option<&'a mut T>)
        requires
            self.valid(*old(m)),
        ensures
            final(m).wf(),
            self.valid(*final(m)),
            self.prefix_bits(*final(m)) == self.prefix_bits(*old(m)),
            match r {
                Some(v) => {
                    &&& self.as_map(*old(m)).contains_key(self.prefix_bits(*old(m)))
                    &&& *v == self.as_map(*old(m))[self.prefix_bits(*old(m))]
                    &&& final(m).as_map() == old(m).as_map().insert(
                        self.prefix_bits(*old(m)),
                        *final(v),
                    )
                },
                None => {
                    &&& !self.as_map(*old(m)).contains_key(self.prefix_bits(*old(m)))
                    &&& final(m).as_map() == old(m).as_map()
                },
            },
    {
        proof {
            m.lemma_model();
        }
        let ghost t1 = m.table.view_nodes();
        let ghost vp = self.prefix_bits(*m);
        proof {
            lemma_prefix_refl(vp);
        }
        match &self.loc {
            ViewLoc::Node(i) => {
                proof {
                    lemma_own_value_unique(t1, *i as int);
                }
                let node = crate::map::node_mut(&mut m.table, *i);
                let slot = crate::map::slot_value_mut(node);
                match crate::map::opt_as_mut(slot) {
                    Some(v) => {
                        proof {
                            let t2 = t1.update(
                                *i as int,
                                crate::inner::Node {
                                    prefix: t1[*i as int].prefix,
                                    value: Some(*final(v)),
                                    left: t1[*i as int].left,
                                    right: t1[*i as int].right,
                                },
                            );
                            assert(crate::inner::same_shape(t1, t2)) by {
                                assert(forall|n: int|
                                    0 <= n < t1.len() && n != *i as int ==> #[trigger] t2[n]
                                        == t1[n]);
                            }
                            crate::inner::lemma_contents_value_update(t1, t2, *i as int);
                            lemma_loc_wf_same_shape(t1, t2, self.loc);
                        }
                        Some(v)
                    },
                    None => {
                        proof {
                            assert(t1[*i as int].value is None);
                            assert((crate::inner::Node {
                                prefix: t1[*i as int].prefix,
                                value: Option::<T>::None,
                                left: t1[*i as int].left,
                                right: t1[*i as int].right,
                            }) == t1[*i as int]);
                            assert(t1.update(*i as int, t1[*i as int]) =~= t1);
                        }
                        None
                    },
                }
            },
            ViewLoc::Virtual(p, _) => {
                proof {
                    if contents(t1).contains_key(vp) {
                        let j = lemma_has_key_unique(t1, vp);
                    }
                }
                None
            },
        }
    }

    /// Get the prefix together with a mutable reference to the value stored
    /// at exactly this cursor's prefix, if any.
    pub fn prefix_value_mut<'a>(&self, m: &'a mut PrefixMap<P, T>) -> (r: Option<
        (&'a P, &'a mut T),
    >)
        requires
            self.valid(*old(m)),
        ensures
            final(m).wf(),
            self.valid(*final(m)),
            self.prefix_bits(*final(m)) == self.prefix_bits(*old(m)),
            match r {
                Some(pv) => {
                    &&& self.as_map(*old(m)).contains_key(self.prefix_bits(*old(m)))
                    &&& pv.0.bits() == self.prefix_bits(*old(m))
                    &&& *pv.1 == self.as_map(*old(m))[self.prefix_bits(*old(m))]
                    &&& final(m).as_map() == old(m).as_map().insert(
                        self.prefix_bits(*old(m)),
                        *final(pv.1),
                    )
                },
                None => {
                    &&& !self.as_map(*old(m)).contains_key(self.prefix_bits(*old(m)))
                    &&& final(m).as_map() == old(m).as_map()
                },
            },
    {
        proof {
            m.lemma_model();
        }
        let ghost t1 = m.table.view_nodes();
        let ghost vp = self.prefix_bits(*m);
        proof {
            lemma_prefix_refl(vp);
        }
        match &self.loc {
            ViewLoc::Node(i) => {
                proof {
                    lemma_own_value_unique(t1, *i as int);
                }
                let node = crate::map::node_mut(&mut m.table, *i);
                match crate::map::node_prefix_value_mut(node) {
                    Some(pv) => {
                        proof {
                            let t2 = t1.update(
                                *i as int,
                                crate::inner::Node {
                                    prefix: t1[*i as int].prefix,
                                    value: Some(*final(pv.1)),
                                    left: t1[*i as int].left,
                                    right: t1[*i as int].right,
                                },
                            );
                            assert(crate::inner::same_shape(t1, t2)) by {
                                assert(forall|n: int|
                                    0 <= n < t1.len() && n != *i as int ==> #[trigger] t2[n]
                                        == t1[n]);
                            }
                            crate::inner::lemma_contents_value_update(t1, t2, *i as int);
                            lemma_loc_wf_same_shape(t1, t2, self.loc);
                        }
                        Some(pv)
                    },
                    None => {
                        proof {
                            assert(t1.update(*i as int, t1[*i as int]) =~= t1);
                        }
                        None
                    },
                }
            },
            ViewLoc::Virtual(p, _) => {
                proof {
                    if contents(t1).contains_key(vp) {
                        let j = lemma_has_key_unique(t1, vp);
                    }
                }
                None
            },
        }
    }

    /// Remove and return the value stored at exactly this cursor's prefix.
    /// The tree structure is untouched, so this cursor and any disjoint
    /// cursor stay valid.
    pub fn remove(&self, m: &mut PrefixMap<P, T>) -> (r: Option<T>)
        requires
            self.valid(*old(m)),
        ensures
            final(m).wf(),
            self.valid(*final(m)),
            self.prefix_bits(*final(m)) == self.prefix_bits(*old(m)),
            final(m).as_map() == old(m).as_map().remove(self.prefix_bits(*old(m))),
            match r {
                Some(v) => self.as_map(*old(m)).contains_key(self.prefix_bits(*old(m))) && v
                    == self.as_map(*old(m))[self.prefix_bits(*old(m))],
                None => !self.as_map(*old(m)).contains_key(self.prefix_bits(*old(m))),
            },
    {
        proof {
            m.lemma_model();
        }
        let ghost t1 = m.table.view_nodes();
        let ghost vp = self.prefix_bits(*m);
        proof {
            lemma_prefix_refl(vp);
        }
        match &self.loc {
            ViewLoc::Node(i) => {
                proof {
                    lemma_own_value_unique(t1, *i as int);
                }
                let mut slot: Option<T> = None;
                core::mem::swap(&mut m.table.nodes[*i].value, &mut slot);
                proof {
                    m.lemma_model();
                    let t2 = m.table.view_nodes();
                    assert(crate::inner::same_shape(t1, t2)) by {
                        assert(forall|n: int|
                            0 <= n < t1.len() && n != *i as int ==> #[trigger] t2[n] == t1[n]);
                    }
                    crate::inner::lemma_contents_value_update(t1, t2, *i as int);
                    assert(contents(t2) =~= contents(t1).remove(vp));
                    crate::inner::lemma_same_shape_links(t1, t2);
                    crate::inner::lemma_same_shape_reach(t1, t2, *i as int);
                    assert(loc_wf(t2, self.loc)) by {
                        assert forall|j: int| 0 <= j < t2.len() implies #[trigger] reach(t2, j)
                            == reach(t1, j) && key_of(t2, j) == key_of(t1, j) by {
                            crate::inner::lemma_same_shape_reach(t1, t2, j);
                            if j != *i as int {
                                assert(t2[j] == t1[j]);
                            }
                        }
                        match self.loc {
                            ViewLoc::Node(_) => {},
                            ViewLoc::Virtual(_, _) => {
                                assert forall|j: int|
                                    0 <= j < t2.len() && #[trigger] reach(t2, j) implies key_of(
                                    t2,
                                    j,
                                ) != loc_bits(t1, self.loc) && (is_prefix_of(
                                    loc_bits(t1, self.loc),
                                    key_of(t2, j),
                                ) ==> in_subtree(t2, loc_idx(self.loc), j)) by {
                                    assert(reach(t1, j));
                                    crate::inner::lemma_same_shape_subtree(
                                        t1,
                                        t2,
                                        loc_idx(self.loc),
                                        j,
                                    );
                                }
                            },
                        }
                    }
                }
                slot
            },
            ViewLoc::Virtual(p, _) => {
                proof {
                    if contents(t1).contains_key(vp) {
                        let j = lemma_has_key_unique(t1, vp);
                    }
                    assert(m.as_map() =~= m.as_map().remove(vp));
                }
                None
            },
        }
    }
}

impl<P: Prefix, T> PrefixMap<P, T> {
    /// A mutable cursor over the whole map, rooted at the identity prefix.
    pub fn view_mut(&self) -> (r: TrieViewMut<P, T>)
        requires
            self.wf(),
        ensures
            r.valid(*self),
            r.prefix_bits(*self).len() == 0,
            r.as_map(*self) == self.as_map(),
    {
        proof {
            self.lemma_model();
        }
        let r = TrieViewMut::<P, T> {
            loc: ViewLoc::Node(0),
            _values: core::marker::PhantomData,
        };
        proof {
            let t = self.table.view_nodes();
            assert(reach(t, 0));
            assert(r.as_map(*self) =~= self.as_map()) by {
                assert forall|k: Seq<bool>| true implies #[trigger] r.as_map(*self).contains_key(
                    k,
                ) == self.as_map().contains_key(k) by {
                    assert(key_of(t, 0) =~= k.take(0));
                }
            }
        }
        r
    }

    /// A mutable cursor rooted at `prefix`, when the map stores anything
    /// below it.
    pub fn view_mut_at(&self, prefix: P) -> (r: Option<TrieViewMut<P, T>>)
        requires
            self.wf(),
        ensures
            match r {
                Some(v) => {
                    &&& v.valid(*self)
                    &&& v.prefix_bits(*self) == prefix.bits()
                    &&& v.as_map(*self) == restrict_below(self.as_map(), prefix.bits())
                },
                None => forall|k: Seq<bool>|
                    #[trigger] self.as_map().contains_key(k) ==> !is_prefix_of(prefix.bits(), k),
            },
    {
        let ghost pk = prefix.bits();
        let v0 = self.view_mut();
        proof {
            assert(is_prefix_of(v0.prefix_bits(*self), pk)) by {
                assert(v0.prefix_bits(*self) =~= pk.take(0));
            }
        }
        match v0.find(self, prefix) {
            Ok(v) => {
                proof {
                    assert(v.as_map(*self) =~= restrict_below(self.as_map(), pk));
                }
                Some(v)
            },
            Err(_) => None,
        }
    }
}

} // verus!
