//! Iterators over a prefix map: whole-trie, subtree ("children") and
//! ancestor ("cover") traversals, each yielding entries in the order the
//! contract states — ascending lexicographic order for depth-first walks,
//! least-specific first for covering walks.

use vstd::prelude::*;
use vstd::set_lib::lemma_len_subset;
use crate::bits::{
    branch_right, is_prefix_of, is_strict_prefix_of, lemma_branch_lex, lemma_lex_irrefl,
    lemma_prefix_linear, lemma_prefix_refl, lemma_prefix_trans, lemma_proper_prefix_shorter,
    lemma_strict_prefix_lex, lex_lt,
};
use crate::inner::{
    contents, covers_anc, covers_ext, has_key, in_subtree, is_link, key_of,
    lemma_cover_descend, lemma_cover_stop, lemma_has_key_unique, lemma_reach_is_root_subtree,
    lemma_search_descend, lemma_search_empty, lemma_search_init, lemma_search_reached,
    lemma_search_sub_above, lemma_subtree_prefix, lemma_subtree_step, lemma_subtree_strict,
    lemma_subtree_trans, reach, table_wf, Direction, DirectionForInsert, Node, Table,
};
use crate::map::PrefixMap;
use crate::prefix::Prefix;

verus! {

/// The bit string of a borrowed entry.
pub open spec fn entry_key<P: Prefix, T>(e: (&P, &T)) -> Seq<bool> {
    e.0.bits()
}

/// The value of a borrowed entry.
pub open spec fn entry_val<P: Prefix, T>(e: (&P, &T)) -> T {
    *e.1
}

/// `es` lists exactly the entries of `m`, in ascending lexicographic key
/// order.
pub open spec fn entries_match<P: Prefix, T>(m: Map<Seq<bool>, T>, es: Seq<(&P, &T)>) -> bool {
    &&& forall|n: int|
        0 <= n < es.len() ==> m.contains_key(entry_key(#[trigger] es[n])) && entry_val(es[n])
            == m[entry_key(es[n])]
    &&& forall|k: Seq<bool>|
        #[trigger] m.contains_key(k) ==> exists|n: int|
            0 <= n < es.len() && entry_key(#[trigger] es[n]) == k
    &&& forall|n1: int, n2: int|
        0 <= n1 < n2 < es.len() ==> lex_lt(entry_key(#[trigger] es[n1]), entry_key(
            #[trigger] es[n2],
        ))
}

/// The entries of `m` whose keys are contained in `p` (the subtree below
/// `p`).
pub open spec fn restrict_below<T>(m: Map<Seq<bool>, T>, p: Seq<bool>) -> Map<Seq<bool>, T> {
    Map::new(|k: Seq<bool>| m.contains_key(k) && is_prefix_of(p, k), |k: Seq<bool>| m[k])
}

/// The entries of `m` whose keys contain `p` (the ancestors covering `p`).
pub open spec fn restrict_covering<T>(m: Map<Seq<bool>, T>, p: Seq<bool>) -> Map<Seq<bool>, T> {
    Map::new(|k: Seq<bool>| m.contains_key(k) && is_prefix_of(k, p), |k: Seq<bool>| m[k])
}

/// `es` lists exactly the entries of `m`, ordered from least to most
/// specific key (each key a strict initial segment of the next).
pub open spec fn cover_entries_match<P: Prefix, T>(
    m: Map<Seq<bool>, T>,
    es: Seq<(&P, &T)>,
) -> bool {
    &&& forall|n: int|
        0 <= n < es.len() ==> m.contains_key(entry_key(#[trigger] es[n])) && entry_val(es[n])
            == m[entry_key(es[n])]
    &&& forall|k: Seq<bool>|
        #[trigger] m.contains_key(k) ==> exists|n: int|
            0 <= n < es.len() && entry_key(#[trigger] es[n]) == k
    &&& forall|n1: int, n2: int|
        0 <= n1 < n2 < es.len() ==> is_strict_prefix_of(entry_key(#[trigger] es[n1]), entry_key(
            #[trigger] es[n2],
        ))
}

/// Keys under later stack entries come lexicographically before keys under
/// earlier ones: the depth-first stack yields ascending order.
pub(crate) open spec fn stack_ordered<P: Prefix, T>(t: Seq<Node<P, T>>, st: Seq<usize>) -> bool {
    forall|q1: int, q2: int, j1: int, j2: int|
        0 <= q1 < q2 < st.len() && 0 <= j1 < t.len() && 0 <= j2 < t.len() && #[trigger] in_subtree(
            t,
            st[q1] as int,
            j1,
        ) && #[trigger] in_subtree(t, st[q2] as int, j2) ==> lex_lt(key_of(t, j2), key_of(t, j1))
}

/// Everything already emitted comes lexicographically before everything still
/// on the stack.
pub(crate) open spec fn out_before_stack<P: Prefix, T>(
    t: Seq<Node<P, T>>,
    out: Seq<usize>,
    st: Seq<usize>,
) -> bool {
    forall|n: int, q: int, j: int|
        0 <= n < out.len() && 0 <= q < st.len() && 0 <= j < t.len() && #[trigger] in_subtree(
            t,
            st[q] as int,
            j,
        ) ==> lex_lt(key_of(t, #[trigger] out[n] as int), key_of(t, j))
}

/// Every valued slot below `a` has been emitted or still sits below some
/// stack entry.
pub(crate) open spec fn dfs_covered<P: Prefix, T>(
    t: Seq<Node<P, T>>,
    a: int,
    out: Seq<usize>,
    st: Seq<usize>,
) -> bool {
    forall|j: int|
        0 <= j < t.len() && t[j].value is Some && #[trigger] in_subtree(t, a, j) ==> (exists|n: int|
            0 <= n < out.len() && #[trigger] out[n] as int == j) || (exists|q: int|
            0 <= q < st.len() && in_subtree(t, #[trigger] st[q] as int, j))
}

/// The indices of all valued slots in the subtree rooted at `start`, in
/// ascending lexicographic order of their keys, by an explicit-stack
/// depth-first walk (right child pushed below left, so left is exhausted
/// first).
pub(crate) fn dfs_order<P: Prefix, T>(table: &Table<P, T>, start: Option<usize>) -> (r: Vec<
    usize,
>)
    requires
        table_wf(table.view_nodes()),
        match start {
            Some(a) => (a as int) < table.view_nodes().len() && reach(
                table.view_nodes(),
                a as int,
            ),
            None => true,
        },
    ensures
        ({
            let t = table.view_nodes();
            &&& forall|n: int|
                0 <= n < r.len() ==> (#[trigger] r[n] as int) < t.len() && t[
                    r[n] as int].value is Some && start is Some && in_subtree(
                    t,
                    start->0 as int,
                    r[n] as int,
                )
            &&& forall|j: int|
                0 <= j < t.len() && t[j].value is Some && start is Some && #[trigger] in_subtree(
                    t,
                    start->0 as int,
                    j,
                ) ==> exists|n: int| 0 <= n < r.len() && #[trigger] r[n] as int == j
            &&& forall|n1: int, n2: int|
                0 <= n1 < n2 < r.len() ==> lex_lt(
                    key_of(t, #[trigger] r[n1] as int),
                    key_of(t, #[trigger] r[n2] as int),
                )
        }),
{
    let ghost t = table.view_nodes();
    let ghost a: int = match start {
        Some(a) => a as int,
        None => 0,
    };
    let mut stack: Vec<usize> = Vec::new();
    if let Some(s0) = start {
        stack.push(s0);
    }
    let mut out: Vec<usize> = Vec::new();
    let ghost mut visited: Set<int> = Set::empty();
    proof {
        if start is Some {
            assert(in_subtree(t, a, a));
            assert forall|j: int|
                0 <= j < t.len() && t[j].value is Some && #[trigger] in_subtree(
                    t,
                    a,
                    j,
                ) implies (exists|n: int|
                0 <= n < out@.len() && #[trigger] out@[n] as int == j) || (exists|q: int|
                0 <= q < stack@.len() && in_subtree(t, #[trigger] stack@[q] as int, j)) by {
                assert(stack@[0] as int == a);
                assert(in_subtree(t, stack@[0] as int, j));
            }
        }
    }
    loop
        invariant
            t == table.view_nodes(),
            table_wf(t),
            start is None ==> stack@.len() == 0 && out@.len() == 0,
            start is Some ==> a == start->0 as int && 0 <= a < t.len() && reach(t, a),
            forall|q: int|
                0 <= q < stack@.len() ==> (#[trigger] stack@[q] as int) < t.len() && reach(
                    t,
                    stack@[q] as int,
                ) && in_subtree(t, a, stack@[q] as int),
            forall|n: int|
                0 <= n < out@.len() ==> (#[trigger] out@[n] as int) < t.len() && t[
                    out@[n] as int].value is Some && in_subtree(t, a, out@[n] as int),
            stack_ordered(t, stack@),
            out_before_stack(t, out@, stack@),
            forall|n1: int, n2: int|
                0 <= n1 < n2 < out@.len() ==> lex_lt(
                    key_of(t, #[trigger] out@[n1] as int),
                    key_of(t, #[trigger] out@[n2] as int),
                ),
            start is Some ==> dfs_covered(t, a, out@, stack@),
            visited.finite(),
            visited.subset_of(vstd::set_lib::set_int_range(0, t.len() as int)),
            forall|q: int, j: int|
                0 <= q < stack@.len() && 0 <= j < t.len() && #[trigger] in_subtree(
                    t,
                    stack@[q] as int,
                    j,
                ) ==> !visited.contains(j),
        ensures
            stack@.len() == 0,
            forall|n: int|
                0 <= n < out@.len() ==> (#[trigger] out@[n] as int) < t.len() && t[
                    out@[n] as int].value is Some && in_subtree(t, a, out@[n] as int),
            forall|n1: int, n2: int|
                0 <= n1 < n2 < out@.len() ==> lex_lt(
                    key_of(t, #[trigger] out@[n1] as int),
                    key_of(t, #[trigger] out@[n2] as int),
                ),
            start is Some ==> dfs_covered(t, a, out@, stack@) && a == start->0 as int,
            start is None ==> out@.len() == 0,
        decreases t.len() - visited.len(), stack@.len(),
    {
        let ghost old_stack = stack@;
        let cur = match stack.pop() {
            Some(c) => c,
            None => {
                break ;
            },
        };
        let ghost rest = stack@;
        let ghost old_out = out@;
        proof {
            assert(old_stack =~= rest.push(cur));
            assert(in_subtree(t, cur as int, cur as int));
            assert(!visited.contains(cur as int));
            vstd::set_lib::lemma_int_range(0, t.len() as int);
            lemma_len_subset(
                visited.insert(cur as int),
                vstd::set_lib::set_int_range(0, t.len() as int),
            );
        }
        let rc = table.get_child(cur, true);
        let lc = table.get_child(cur, false);
        if let Some(c) = rc {
            proof {
                assert(is_link(t, cur as int, true, c as int));
                assert(in_subtree(t, c as int, c as int));
                crate::inner::lemma_reach_extend(t, cur as int, true, c as int);
                lemma_subtree_trans(t, a, cur as int, c as int);
            }
            stack.push(c);
        }
        if let Some(c) = lc {
            proof {
                assert(is_link(t, cur as int, false, c as int));
                assert(in_subtree(t, c as int, c as int));
                crate::inner::lemma_reach_extend(t, cur as int, false, c as int);
                lemma_subtree_trans(t, a, cur as int, c as int);
            }
            stack.push(c);
        }
        let ghost st2 = stack@;
        proof {
            // everything below a freshly pushed child lies strictly below cur
            assert forall|q: int, j: int|
                rest.len() <= q < st2.len() && 0 <= j < t.len() && #[trigger] in_subtree(
                    t,
                    st2[q] as int,
                    j,
                ) implies in_subtree(t, cur as int, j) && j != cur as int && lex_lt(
                key_of(t, cur as int),
                key_of(t, j),
            ) && !visited.contains(j) by {
                let c = st2[q];
                assert(is_link(t, cur as int, true, c as int) || is_link(
                    t,
                    cur as int,
                    false,
                    c as int,
                ));
                lemma_subtree_prefix(t, c as int, j);
                lemma_subtree_trans(t, cur as int, c as int, j);
                lemma_subtree_strict(t, cur as int, j);
                lemma_strict_prefix_lex(key_of(t, cur as int), key_of(t, j));
                assert(in_subtree(t, old_stack[old_stack.len() - 1] as int, j));
            }
            // everything below cur comes lexicographically after all older
            // stack entries' subtrees and after all old output
            assert forall|q: int, j: int, j2: int|
                0 <= q < rest.len() && 0 <= j < t.len() && 0 <= j2 < t.len() && #[trigger]
                in_subtree(t, rest[q] as int, j) && #[trigger] in_subtree(
                    t,
                    cur as int,
                    j2,
                ) implies lex_lt(key_of(t, j2), key_of(t, j)) by {
                assert(in_subtree(t, old_stack[q] as int, j));
                assert(in_subtree(t, old_stack[old_stack.len() - 1] as int, j2));
            }
            assert forall|n: int, j2: int|
                0 <= n < old_out.len() && 0 <= j2 < t.len() && #[trigger] in_subtree(
                    t,
                    cur as int,
                    j2,
                ) implies lex_lt(key_of(t, #[trigger] old_out[n] as int), key_of(t, j2)) by {
                assert(in_subtree(t, old_stack[old_stack.len() - 1] as int, j2));
            }
            // cur itself sits below no older stack entry
            assert forall|q: int| 0 <= q < rest.len() implies !in_subtree(
                t,
                #[trigger] rest[q] as int,
                cur as int,
            ) by {
                if in_subtree(t, rest[q] as int, cur as int) {
                    assert(in_subtree(t, old_stack[q] as int, cur as int));
                    assert(in_subtree(t, old_stack[old_stack.len() - 1] as int, cur as int));
                    assert(lex_lt(key_of(t, cur as int), key_of(t, cur as int)));
                    lemma_lex_irrefl(key_of(t, cur as int));
                }
            }
        }
        if table.nodes[cur].value.is_some() {
            out.push(cur);
        }
        proof {
            visited = visited.insert(cur as int);
            let out2 = out@;
            assert(stack_ordered(t, st2)) by {
                assert forall|q1: int, q2: int, j1: int, j2: int|
                    0 <= q1 < q2 < st2.len() && 0 <= j1 < t.len() && 0 <= j2 < t.len()
                        && #[trigger] in_subtree(t, st2[q1] as int, j1) && #[trigger] in_subtree(
                        t,
                        st2[q2] as int,
                        j2,
                    ) implies lex_lt(key_of(t, j2), key_of(t, j1)) by {
                    if q2 < rest.len() {
                        assert(in_subtree(t, old_stack[q1] as int, j1));
                        assert(in_subtree(t, old_stack[q2] as int, j2));
                    } else if q1 < rest.len() {
                        // j2 sits below cur; the older entry q1 wins
                    } else {
                        // both are fresh children: q1 is the right child,
                        // q2 the left one
                        let c1 = st2[q1];
                        let c2 = st2[q2];
                        assert(is_link(t, cur as int, true, c1 as int));
                        assert(is_link(t, cur as int, false, c2 as int));
                        crate::inner::lemma_subtree_side(t, cur as int, true, c1 as int, j1);
                        crate::inner::lemma_subtree_side(t, cur as int, false, c2 as int, j2);
                        lemma_branch_lex(key_of(t, cur as int), key_of(t, j2), key_of(t, j1));
                    }
                }
            }
            assert(out_before_stack(t, out2, st2)) by {
                assert forall|n: int, q: int, j: int|
                    0 <= n < out2.len() && 0 <= q < st2.len() && 0 <= j < t.len() && #[trigger]
                    in_subtree(t, st2[q] as int, j) implies lex_lt(
                    key_of(t, #[trigger] out2[n] as int),
                    key_of(t, j),
                ) by {
                    if n < old_out.len() {
                        if q < rest.len() {
                            assert(in_subtree(t, old_stack[q] as int, j));
                        } else {
                            assert(in_subtree(t, cur as int, j));
                        }
                    } else {
                        assert(out2[n] == cur);
                        if q < rest.len() {
                            assert(in_subtree(t, cur as int, cur as int));
                        } else {
                            assert(in_subtree(t, cur as int, j) && j != cur as int);
                        }
                    }
                }
            }
            assert forall|n1: int, n2: int| 0 <= n1 < n2 < out2.len() implies lex_lt(
                key_of(t, #[trigger] out2[n1] as int),
                key_of(t, #[trigger] out2[n2] as int),
            ) by {
                if n2 >= old_out.len() {
                    assert(out2[n2] == cur);
                    assert(in_subtree(t, old_stack[old_stack.len() - 1] as int, cur as int));
                    assert(lex_lt(key_of(t, old_out[n1] as int), key_of(t, cur as int)));
                }
            }
            if start is Some {
                assert(dfs_covered(t, a, out2, st2)) by {
                    assert forall|j: int|
                        0 <= j < t.len() && t[j].value is Some && #[trigger] in_subtree(
                            t,
                            a,
                            j,
                        ) implies (exists|n: int|
                        0 <= n < out2.len() && #[trigger] out2[n] as int == j) || (exists|q: int|
                        0 <= q < st2.len() && in_subtree(t, #[trigger] st2[q] as int, j)) by {
                        if exists|n: int| 0 <= n < old_out.len() && #[trigger] old_out[n] as int
                            == j {
                            let n = choose|n: int|
                                0 <= n < old_out.len() && #[trigger] old_out[n] as int == j;
                            assert(out2[n] as int == j);
                        } else if exists|q: int|
                            0 <= q < old_stack.len() && in_subtree(
                                t,
                                #[trigger] old_stack[q] as int,
                                j,
                            ) {
                            let q = choose|q: int|
                                0 <= q < old_stack.len() && in_subtree(
                                    t,
                                    #[trigger] old_stack[q] as int,
                                    j,
                                );
                            if q < rest.len() {
                                assert(st2[q] == rest[q] && rest[q] == old_stack[q]);
                                assert(in_subtree(t, st2[q] as int, j));
                            } else {
                                // j sits below cur
                                assert(in_subtree(t, cur as int, j));
                                if j == cur as int {
                                    assert(out2[out2.len() - 1] as int == j);
                                } else {
                                    let c = lemma_subtree_step(t, cur as int, j);
                                    let s = crate::bits::branch_right(
                                        key_of(t, cur as int),
                                        key_of(t, j),
                                    );
                                    assert(is_link(t, cur as int, s, c));
                                    if s {
                                        assert(st2[rest.len() as int] as int == c);
                                        assert(in_subtree(t, st2[rest.len() as int] as int, j));
                                    } else {
                                        assert(st2[st2.len() - 1] as int == c);
                                        assert(in_subtree(t, st2[st2.len() - 1] as int, j));
                                    }
                                }
                            }
                        }
                    }
                }
            }
            // the fresh children's subtrees avoid the newly visited slot
            assert forall|q: int, j: int|
                0 <= q < st2.len() && 0 <= j < t.len() && #[trigger] in_subtree(
                    t,
                    st2[q] as int,
                    j,
                ) implies !visited.contains(j) by {
                if q < rest.len() {
                    assert(in_subtree(t, old_stack[q] as int, j));
                    if j == cur as int {
                        assert(!in_subtree(t, rest[q] as int, cur as int));
                    }
                } else {
                    assert(j != cur as int);
                }
            }
        }
    }
    out
}

/// Borrow the prefix/value pairs of the given valued slots, in order.
fn collect_refs<'a, P: Prefix, T>(table: &'a Table<P, T>, idxs: &Vec<usize>) -> (r: Vec<
    (&'a P, &'a T),
>)
    requires
        forall|n: int|
            0 <= n < idxs@.len() ==> (#[trigger] idxs@[n] as int) < table.view_nodes().len()
                && table.view_nodes()[idxs@[n] as int].value is Some,
    ensures
        r@.len() == idxs@.len(),
        forall|n: int|
            0 <= n < r@.len() ==> entry_key(#[trigger] r@[n]) == key_of(
                table.view_nodes(),
                idxs@[n] as int,
            ) && entry_val(r@[n]) == table.view_nodes()[idxs@[n] as int].value->0,
{
    let ghost t = table.view_nodes();
    let mut r: Vec<(&'a P, &'a T)> = Vec::new();
    let mut i: usize = 0;
    while i < idxs.len()
        invariant
            t == table.view_nodes(),
            i <= idxs@.len(),
            r@.len() == i,
            forall|n: int|
                0 <= n < idxs@.len() ==> (#[trigger] idxs@[n] as int) < t.len() && t[
                    idxs@[n] as int].value is Some,
            forall|n: int|
                0 <= n < i ==> entry_key(#[trigger] r@[n]) == key_of(t, idxs@[n] as int)
                    && entry_val(r@[n]) == t[idxs@[n] as int].value->0,
        decreases idxs@.len() - i,
    {
        let idx = idxs[i];
        let node = &table.nodes[idx];
        let v = node.value.as_ref().unwrap();
        r.push((&node.prefix, v));
        i = i + 1;
    }
    r
}

/// An iterator over borrowed entries of a [`PrefixMap`], in ascending
/// lexicographic order of their prefixes.
pub struct Iter<'a, P, T> {
    entries: Vec<(&'a P, &'a T)>,
    pos: usize,
}

impl<'a, P: Prefix, T> Iter<'a, P, T> {
    /// The position never runs past the entry list.
    pub closed spec fn wf(&self) -> bool {
        self.pos <= self.entries@.len()
    }

    /// The entries not yet yielded.
    pub closed spec fn remaining(&self) -> Seq<(&'a P, &'a T)> {
        self.entries@.skip(self.pos as int)
    }

    /// Yield the next entry, or `None` when the iteration is done.
    pub fn next(&mut self) -> (r: Option<(&'a P, &'a T)>)
        requires
            old(self).wf(),
        ensures
            final(self).wf(),
            match r {
                Some(e) => {
                    &&& old(self).remaining().len() > 0
                    &&& e == old(self).remaining()[0]
                    &&& final(self).remaining() == old(self).remaining().skip(1)
                },
                None => {
                    &&& old(self).remaining().len() == 0
                    &&& final(self).remaining().len() == 0
                },
            },
    {
        if self.pos < self.entries.len() {
            let e = self.entries[self.pos];
            self.pos = self.pos + 1;
            proof {
                assert(self.remaining() =~= old(self).remaining().skip(1));
            }
            Some(e)
        } else {
            None
        }
    }
}

/// An iterator over borrowed prefixes of a [`PrefixMap`], in ascending
/// lexicographic order.
pub struct Keys<'a, P, T> {
    pub(crate) inner: Iter<'a, P, T>,
}

impl<'a, P: Prefix, T> Keys<'a, P, T> {
    pub closed spec fn wf(&self) -> bool {
        self.inner.wf()
    }

    /// This wrapper adds nothing of its own to the inner iterator.
    pub(crate) proof fn lemma_wrap(&self)
        ensures
            self.wf() == self.inner.wf(),
            self.remaining() == self.inner.remaining(),
    {
    }

    /// The entries whose prefixes have not yet been yielded.
    pub closed spec fn remaining(&self) -> Seq<(&'a P, &'a T)> {
        self.inner.remaining()
    }

    /// Yield the next prefix, or `None` when the iteration is done.
    pub fn next(&mut self) -> (r: Option<&'a P>)
        requires
            old(self).wf(),
        ensures
            final(self).wf(),
            match r {
                Some(p) => {
                    &&& old(self).remaining().len() > 0
                    &&& p == old(self).remaining()[0].0
                    &&& final(self).remaining() == old(self).remaining().skip(1)
                },
                None => {
                    &&& old(self).remaining().len() == 0
                    &&& final(self).remaining().len() == 0
                },
            },
    {
        match self.inner.next() {
            Some(e) => Some(e.0),
            None => None,
        }
    }
}

/// An iterator over borrowed values of a [`PrefixMap`], in ascending
/// lexicographic order of their prefixes.
pub struct Values<'a, P, T> {
    pub(crate) inner: Iter<'a, P, T>,
}

impl<'a, P: Prefix, T> Values<'a, P, T> {
    pub closed spec fn wf(&self) -> bool {
        self.inner.wf()
    }

    /// This wrapper adds nothing of its own to the inner iterator.
    pub(crate) proof fn lemma_wrap(&self)
        ensures
            self.wf() == self.inner.wf(),
            self.remaining() == self.inner.remaining(),
    {
    }

    /// The entries whose values have not yet been yielded.
    pub closed spec fn remaining(&self) -> Seq<(&'a P, &'a T)> {
        self.inner.remaining()
    }

    /// Yield the next value, or `None` when the iteration is done.
    pub fn next(&mut self) -> (r: Option<&'a T>)
        requires
            old(self).wf(),
        ensures
            final(self).wf(),
            match r {
                Some(v) => {
                    &&& old(self).remaining().len() > 0
                    &&& v == old(self).remaining()[0].1
                    &&& final(self).remaining() == old(self).remaining().skip(1)
                },
                None => {
                    &&& old(self).remaining().len() == 0
                    &&& final(self).remaining().len() == 0
                },
            },
    {
        match self.inner.next() {
            Some(e) => Some(e.1),
            None => None,
        }
    }
}

impl<P: Prefix, T> PrefixMap<P, T> {
    /// Walk towards `prefix` and return the root of the subtree holding
    /// exactly the stored keys that `prefix` contains, if any are stored.
    fn subtree_root(&self, prefix: &P) -> (r: Option<usize>)
        requires
            self.wf(),
        ensures
            ({
                let t = self.table.view_nodes();
                let pk = prefix.bits();
                match r {
                    Some(i) => {
                        &&& (i as int) < t.len()
                        &&& reach(t, i as int)
                        &&& forall|j: int|
                            0 <= j < t.len() && #[trigger] reach(t, j) ==> (is_prefix_of(
                                pk,
                                key_of(t, j),
                            ) <==> in_subtree(t, i as int, j))
                    },
                    None => forall|k: Seq<bool>|
                        #[trigger] self.as_map().contains_key(k) ==> !is_prefix_of(pk, k),
                }
            }),
    {
        let ghost t = self.table.view_nodes();
        let ghost pk = prefix.bits();
        let mut cur: usize = 0;
        proof {
            lemma_search_init::<P, T>(t, pk);
            assert(is_prefix_of(key_of(t, 0), pk)) by {
                assert(key_of(t, 0) =~= pk.take(0));
            }
        }
        loop
            invariant
                self.wf(),
                t == self.table.view_nodes(),
                pk == prefix.bits(),
                cur < t.len(),
                reach(t, cur as int),
                is_prefix_of(key_of(t, cur as int), pk),
                covers_ext(t, cur as int, pk),
            decreases pk.len() - key_of(t, cur as int).len(),
        {
            match self.table.get_direction_for_insert(cur, prefix) {
                DirectionForInsert::Reached => {
                    proof {
                        lemma_search_reached(t, pk, cur as int);
                    }
                    return Some(cur);
                },
                DirectionForInsert::Enter { next, right } => {
                    proof {
                        lemma_proper_prefix_shorter(key_of(t, cur as int), pk);
                        lemma_search_descend(t, pk, cur as int, next as int);
                        crate::inner::lemma_reach_extend(t, cur as int, right, next as int);
                    }
                    cur = next;
                },
                DirectionForInsert::NewChild { right, child_right } => {
                    let c = self.table.get_child(cur, right).unwrap();
                    proof {
                        lemma_proper_prefix_shorter(key_of(t, cur as int), pk);
                        assert(is_link(t, cur as int, right, c as int));
                        lemma_search_sub_above(t, pk, cur as int, c as int);
                        crate::inner::lemma_reach_extend(t, cur as int, right, c as int);
                    }
                    return Some(c);
                },
                DirectionForInsert::NewLeaf { right } => {
                    proof {
                        lemma_proper_prefix_shorter(key_of(t, cur as int), pk);
                        lemma_search_empty(t, pk, cur as int);
                        assert forall|k: Seq<bool>|
                            #[trigger] self.as_map().contains_key(k) implies !is_prefix_of(
                            pk,
                            k,
                        ) by {
                            if is_prefix_of(pk, k) {
                                let i = lemma_has_key_unique(t, k);
                            }
                        }
                    }
                    return None;
                },
                DirectionForInsert::NewBranch { branch_prefix, right, prefix_right } => {
                    proof {
                        lemma_proper_prefix_shorter(key_of(t, cur as int), pk);
                        lemma_search_empty(t, pk, cur as int);
                        assert forall|k: Seq<bool>|
                            #[trigger] self.as_map().contains_key(k) implies !is_prefix_of(
                            pk,
                            k,
                        ) by {
                            if is_prefix_of(pk, k) {
                                let i = lemma_has_key_unique(t, k);
                            }
                        }
                    }
                    return None;
                },
            }
        }
    }

    /// Translate the depth-first index facts into entry-level facts about
    /// the map restricted below `pk`.
    proof fn lemma_entries_below(
        &self,
        pk: Seq<bool>,
        root: Option<usize>,
        idxs: Seq<usize>,
        es: Seq<(&P, &T)>,
    )
        requires
            self.wf(),
            ({
                let t = self.table.view_nodes();
                &&& match root {
                    Some(i) => {
                        &&& (i as int) < t.len()
                        &&& reach(t, i as int)
                        &&& forall|j: int|
                            0 <= j < t.len() && #[trigger] reach(t, j) ==> (is_prefix_of(
                                pk,
                                key_of(t, j),
                            ) <==> in_subtree(t, i as int, j))
                    },
                    None => forall|k: Seq<bool>|
                        #[trigger] self.as_map().contains_key(k) ==> !is_prefix_of(pk, k),
                }
                &&& forall|n: int|
                    0 <= n < idxs.len() ==> (#[trigger] idxs[n] as int) < t.len() && t[
                        idxs[n] as int].value is Some && root is Some && in_subtree(
                        t,
                        root->0 as int,
                        idxs[n] as int,
                    )
                &&& forall|j: int|
                    0 <= j < t.len() && t[j].value is Some && root is Some && #[trigger] in_subtree(
                        t,
                        root->0 as int,
                        j,
                    ) ==> exists|n: int| 0 <= n < idxs.len() && #[trigger] idxs[n] as int == j
                &&& forall|n1: int, n2: int|
                    0 <= n1 < n2 < idxs.len() ==> lex_lt(
                        key_of(t, #[trigger] idxs[n1] as int),
                        key_of(t, #[trigger] idxs[n2] as int),
                    )
                &&& es.len() == idxs.len()
                &&& forall|n: int|
                    0 <= n < es.len() ==> entry_key(#[trigger] es[n]) == key_of(
                        t,
                        idxs[n] as int,
                    ) && entry_val(es[n]) == t[idxs[n] as int].value->0
                &&& root is None ==> idxs.len() == 0
            }),
        ensures
            entries_match(restrict_below(self.as_map(), pk), es),
    {
        let t = self.table.view_nodes();
        let m = restrict_below(self.as_map(), pk);
        assert forall|n: int| 0 <= n < es.len() implies m.contains_key(entry_key(
            #[trigger] es[n],
        )) && entry_val(es[n]) == m[entry_key(es[n])] by {
            let i = idxs[n] as int;
            let k = key_of(t, i);
            assert(has_key(t, k));
            let iu = lemma_has_key_unique(t, k);
            assert(iu == i);
            assert(reach(t, i));
            assert(is_prefix_of(pk, k));
        }
        assert forall|k: Seq<bool>| #[trigger] m.contains_key(k) implies exists|n: int|
            0 <= n < es.len() && entry_key(#[trigger] es[n]) == k by {
            let i = lemma_has_key_unique(t, k);
            assert(reach(t, i));
            assert(in_subtree(t, root->0 as int, i));
            let n = choose|n: int| 0 <= n < idxs.len() && #[trigger] idxs[n] as int == i;
            assert(entry_key(es[n]) == k);
        }
    }

    /// An iterator over all entries, in ascending lexicographic order of
    /// their prefixes.
    pub fn iter(&self) -> (r: Iter<'_, P, T>)
        requires
            self.wf(),
        ensures
            r.wf(),
            entries_match(self.as_map(), r.remaining()),
    {
        let ghost t = self.table.view_nodes();
        let idxs = dfs_order(&self.table, Some(0));
        let entries = collect_refs(&self.table, &idxs);
        let r = Iter { entries, pos: 0 };
        proof {
            assert(r.remaining() =~= r.remaining());
            assert(reach(t, 0));
            assert forall|j: int| 0 <= j < t.len() && #[trigger] reach(t, j) implies (
            is_prefix_of(Seq::<bool>::empty(), key_of(t, j)) <==> in_subtree(t, 0, j)) by {
                lemma_reach_is_root_subtree(t, j);
                assert(Seq::<bool>::empty() =~= key_of(t, j).take(0));
            }
            self.lemma_entries_below(Seq::<bool>::empty(), Some(0), idxs@, r.remaining());
            assert(entries_match(self.as_map(), r.remaining())) by {
                let m = restrict_below(self.as_map(), Seq::<bool>::empty());
                assert forall|k: Seq<bool>| true implies #[trigger] m.contains_key(k)
                    == self.as_map().contains_key(k) by {
                    assert(Seq::<bool>::empty() =~= k.take(0));
                }
                assert(m =~= self.as_map());
            }
        }
        r
    }

    /// An iterator over all prefixes, in ascending lexicographic order.
    pub fn keys(&self) -> (r: Keys<'_, P, T>)
        requires
            self.wf(),
        ensures
            r.wf(),
            entries_match(self.as_map(), r.remaining()),
    {
        Keys { inner: self.iter() }
    }

    /// An iterator over all values, in ascending lexicographic order of
    /// their prefixes.
    pub fn values(&self) -> (r: Values<'_, P, T>)
        requires
            self.wf(),
        ensures
            r.wf(),
            entries_match(self.as_map(), r.remaining()),
    {
        Values { inner: self.iter() }
    }

    /// An iterator over the stored entries whose keys extend `pk`, seeded at
    /// the subtree root known to hold exactly those keys.
    pub(crate) fn subtree_iter(&self, start: Option<usize>, Ghost(pk): Ghost<Seq<bool>>) -> (r:
        Iter<'_, P, T>)
        requires
            self.wf(),
            ({
                let t = self.table.view_nodes();
                match start {
                    Some(i) => {
                        &&& (i as int) < t.len()
                        &&& reach(t, i as int)
                        &&& forall|j: int|
                            0 <= j < t.len() && #[trigger] reach(t, j) ==> (is_prefix_of(
                                pk,
                                key_of(t, j),
                            ) <==> in_subtree(t, i as int, j))
                    },
                    None => forall|k: Seq<bool>|
                        #[trigger] self.as_map().contains_key(k) ==> !is_prefix_of(pk, k),
                }
            }),
        ensures
            r.wf(),
            entries_match(restrict_below(self.as_map(), pk), r.remaining()),
    {
        let idxs = dfs_order(&self.table, start);
        let entries = collect_refs(&self.table, &idxs);
        let r = Iter { entries, pos: 0 };
        proof {
            assert(r.remaining() =~= entries@);
            let ghost t = self.table.view_nodes();
            if start is None && idxs@.len() > 0 {
                assert((idxs@[0] as int) < t.len());
                assert(false);
            }
            self.lemma_entries_below(pk, start, idxs@, r.remaining());
        }
        r
    }

    /// An iterator over the entries whose prefixes `prefix` contains —
    /// `prefix` itself, if stored, and all of its descendants — in ascending
    /// lexicographic order.
    pub fn children(&self, prefix: &P) -> (r: Iter<'_, P, T>)
        requires
            self.wf(),
        ensures
            r.wf(),
            entries_match(restrict_below(self.as_map(), prefix.bits()), r.remaining()),
    {
        let start = self.subtree_root(prefix);
        let idxs = dfs_order(&self.table, start);
        let entries = collect_refs(&self.table, &idxs);
        let r = Iter { entries, pos: 0 };
        proof {
            assert(r.remaining() =~= entries@);
            let ghost t = self.table.view_nodes();
            if start is None && idxs@.len() > 0 {
                assert((idxs@[0] as int) < t.len());
                assert(false);
            }
            self.lemma_entries_below(prefix.bits(), start, idxs@, r.remaining());
        }
        r
    }
}

/// An iterator over the borrowed entries covering a query prefix, from the
/// least specific (shortest) to the most specific.
pub struct Cover<'a, P, T> {
    entries: Vec<(&'a P, &'a T)>,
    pos: usize,
}

impl<'a, P: Prefix, T> Cover<'a, P, T> {
    pub closed spec fn wf(&self) -> bool {
        self.pos <= self.entries@.len()
    }

    /// The entries not yet yielded.
    pub closed spec fn remaining(&self) -> Seq<(&'a P, &'a T)> {
        self.entries@.skip(self.pos as int)
    }

    /// Yield the next covering entry, or `None` when the iteration is done.
    pub fn next(&mut self) -> (r: Option<(&'a P, &'a T)>)
        requires
            old(self).wf(),
        ensures
            final(self).wf(),
            match r {
                Some(e) => {
                    &&& old(self).remaining().len() > 0
                    &&& e == old(self).remaining()[0]
                    &&& final(self).remaining() == old(self).remaining().skip(1)
                },
                None => {
                    &&& old(self).remaining().len() == 0
                    &&& final(self).remaining().len() == 0
                },
            },
    {
        if self.pos < self.entries.len() {
            let e = self.entries[self.pos];
            self.pos = self.pos + 1;
            proof {
                assert(self.remaining() =~= old(self).remaining().skip(1));
            }
            Some(e)
        } else {
            None
        }
    }
}

/// The covering prefixes alone, least specific first.
pub struct CoverKeys<'a, P, T> {
    inner: Cover<'a, P, T>,
}

impl<'a, P: Prefix, T> CoverKeys<'a, P, T> {
    pub closed spec fn wf(&self) -> bool {
        self.inner.wf()
    }

    pub closed spec fn remaining(&self) -> Seq<(&'a P, &'a T)> {
        self.inner.remaining()
    }

    /// Yield the next covering prefix, or `None` when the iteration is done.
    pub fn next(&mut self) -> (r: Option<&'a P>)
        requires
            old(self).wf(),
        ensures
            final(self).wf(),
            match r {
                Some(p) => {
                    &&& old(self).remaining().len() > 0
                    &&& p == old(self).remaining()[0].0
                    &&& final(self).remaining() == old(self).remaining().skip(1)
                },
                None => {
                    &&& old(self).remaining().len() == 0
                    &&& final(self).remaining().len() == 0
                },
            },
    {
        match self.inner.next() {
            Some(e) => Some(e.0),
            None => None,
        }
    }
}

/// The covering values alone, least specific first.
pub struct CoverValues<'a, P, T> {
    inner: Cover<'a, P, T>,
}

impl<'a, P: Prefix, T> CoverValues<'a, P, T> {
    pub closed spec fn wf(&self) -> bool {
        self.inner.wf()
    }

    pub closed spec fn remaining(&self) -> Seq<(&'a P, &'a T)> {
        self.inner.remaining()
    }

    /// Yield the next covering value, or `None` when the iteration is done.
    pub fn next(&mut self) -> (r: Option<&'a T>)
        requires
            old(self).wf(),
        ensures
            final(self).wf(),
            match r {
                Some(v) => {
                    &&& old(self).remaining().len() > 0
                    &&& v == old(self).remaining()[0].1
                    &&& final(self).remaining() == old(self).remaining().skip(1)
                },
                None => {
                    &&& old(self).remaining().len() == 0
                    &&& final(self).remaining().len() == 0
                },
            },
    {
        match self.inner.next() {
            Some(e) => Some(e.1),
            None => None,
        }
    }
}

impl<P: Prefix, T> PrefixMap<P, T> {
    /// An iterator over every stored entry whose prefix contains `prefix`,
    /// from the least specific to the most specific.
    pub fn cover<'a>(&'a self, prefix: &'a P) -> (r: Cover<'a, P, T>)
        requires
            self.wf(),
        ensures
            r.wf(),
            cover_entries_match(
                restrict_covering(self.as_map(), prefix.bits()),
                r.remaining(),
            ),
    {
        let ghost t = self.table.view_nodes();
        let ghost pk = prefix.bits();
        let mut entries: Vec<(&'a P, &'a T)> = Vec::new();
        let mut cur: usize = 0;
        proof {
            lemma_search_init::<P, T>(t, pk);
            assert(is_prefix_of(key_of(t, 0), pk)) by {
                assert(key_of(t, 0) =~= pk.take(0));
            }
        }
        let root = &self.table.nodes[0];
        if let Some(v) = root.value.as_ref() {
            entries.push((&root.prefix, v));
        }
        proof {
            assert forall|k: Seq<bool>|
                self.as_map().contains_key(k) && is_prefix_of(
                    k,
                    key_of(t, 0),
                ) implies exists|n: int|
                0 <= n < entries@.len() && entry_key(#[trigger] entries@[n]) == k by {
                let i = lemma_has_key_unique(t, k);
                assert(k.len() == 0);
                assert(k =~= key_of(t, 0));
                assert(reach(t, 0) && reach(t, i));
                assert(i == 0);
                assert(entry_key(entries@[0]) == k);
            }
            assert forall|n: int| 0 <= n < entries@.len() implies self.as_map().contains_key(
                entry_key(#[trigger] entries@[n]),
            ) && entry_val(entries@[n]) == self.as_map()[entry_key(entries@[n])]
                && is_prefix_of(entry_key(entries@[n]), key_of(t, 0)) by {
                assert(t[0].value is Some);
                assert(has_key(t, key_of(t, 0)));
                let i = lemma_has_key_unique(t, key_of(t, 0));
                assert(reach(t, 0));
                assert(i == 0);
                lemma_prefix_refl(key_of(t, 0));
            }
        }
        loop
            invariant
                self.wf(),
                t == self.table.view_nodes(),
                pk == prefix.bits(),
                cur < t.len(),
                reach(t, cur as int),
                is_prefix_of(key_of(t, cur as int), pk),
                covers_anc(t, cur as int, pk),
                forall|n: int|
                    0 <= n < entries@.len() ==> self.as_map().contains_key(entry_key(
                        #[trigger] entries@[n],
                    )) && entry_val(entries@[n]) == self.as_map()[entry_key(entries@[n])]
                        && is_prefix_of(entry_key(entries@[n]), key_of(t, cur as int)),
                forall|k: Seq<bool>|
                    self.as_map().contains_key(k) && is_prefix_of(
                        k,
                        key_of(t, cur as int),
                    ) ==> exists|n: int|
                        0 <= n < entries@.len() && entry_key(#[trigger] entries@[n]) == k,
                forall|n1: int, n2: int|
                    0 <= n1 < n2 < entries@.len() ==> is_strict_prefix_of(
                        entry_key(#[trigger] entries@[n1]),
                        entry_key(#[trigger] entries@[n2]),
                    ),
            ensures
                self.wf(),
                t == self.table.view_nodes(),
                pk == prefix.bits(),
                cur < t.len(),
                is_prefix_of(key_of(t, cur as int), pk),
                forall|n: int|
                    0 <= n < entries@.len() ==> self.as_map().contains_key(entry_key(
                        #[trigger] entries@[n],
                    )) && entry_val(entries@[n]) == self.as_map()[entry_key(entries@[n])]
                        && is_prefix_of(entry_key(entries@[n]), key_of(t, cur as int)),
                forall|k: Seq<bool>|
                    self.as_map().contains_key(k) && is_prefix_of(k, pk) ==> exists|n: int|
                        0 <= n < entries@.len() && entry_key(#[trigger] entries@[n]) == k,
                forall|n1: int, n2: int|
                    0 <= n1 < n2 < entries@.len() ==> is_strict_prefix_of(
                        entry_key(#[trigger] entries@[n1]),
                        entry_key(#[trigger] entries@[n2]),
                    ),
            decreases pk.len() - key_of(t, cur as int).len(),
        {
            let ghost ck = key_of(t, cur as int);
            let ghost old_entries = entries@;
            match self.table.get_direction(cur, prefix) {
                Direction::Enter { next, right } => {
                    proof {
                        lemma_proper_prefix_shorter(ck, pk);
                        lemma_cover_descend(t, pk, cur as int, next as int);
                        crate::inner::lemma_reach_extend(t, cur as int, right, next as int);
                    }
                    cur = next;
                    let node = &self.table.nodes[cur];
                    if let Some(v) = node.value.as_ref() {
                        entries.push((&node.prefix, v));
                        proof {
                            assert(t[cur as int].value is Some);
                            assert(has_key(t, key_of(t, cur as int)));
                            let i = lemma_has_key_unique(t, key_of(t, cur as int));
                            assert(i == cur as int);
                            lemma_prefix_refl(key_of(t, cur as int));
                        }
                    }
                    proof {
                        let nk = key_of(t, cur as int);
                        assert(is_strict_prefix_of(ck, nk));
                        // soundness: old entries stay below the new node's key
                        assert forall|n: int|
                            0 <= n < old_entries.len() implies is_prefix_of(
                            entry_key(#[trigger] old_entries[n]),
                            nk,
                        ) && is_strict_prefix_of(entry_key(old_entries[n]), nk) by {
                            lemma_prefix_trans(entry_key(old_entries[n]), ck, nk);
                        }
                        // completeness: every covering key up to the new node
                        // is either an old one or the new node's own
                        assert forall|k: Seq<bool>|
                            self.as_map().contains_key(k) && is_prefix_of(
                                k,
                                nk,
                            ) implies exists|n: int|
                            0 <= n < entries@.len() && entry_key(#[trigger] entries@[n])
                                == k by {
                            if k.len() <= ck.len() {
                                lemma_prefix_linear(k, ck, nk);
                                let n = choose|n: int|
                                    0 <= n < old_entries.len() && entry_key(
                                        #[trigger] old_entries[n],
                                    ) == k;
                                assert(entry_key(entries@[n]) == k);
                            } else {
                                let i = lemma_has_key_unique(t, k);
                                lemma_prefix_trans(k, nk, pk);
                                assert(in_subtree(t, cur as int, i) || i == cur as int || k.len()
                                    > nk.len()) by {
                                    assert(reach(t, i));
                                }
                                assert(k.len() <= nk.len());
                                if i != cur as int {
                                    assert(k.len() > nk.len());
                                    assert(false);
                                }
                                assert(k == nk);
                                assert(entry_key(entries@[entries@.len() - 1]) == k);
                            }
                        }
                    }
                },
                Direction::Reached => {
                    proof {
                        assert forall|k: Seq<bool>|
                            self.as_map().contains_key(k) && is_prefix_of(
                                k,
                                pk,
                            ) implies exists|n: int|
                            0 <= n < entries@.len() && entry_key(#[trigger] entries@[n])
                                == k by {
                            lemma_prefix_linear(k, key_of(t, cur as int), pk);
                        }
                    }
                    break ;
                },
                Direction::Missing => {
                    proof {
                        lemma_proper_prefix_shorter(ck, pk);
                        lemma_cover_stop(t, pk, cur as int);
                        assert forall|k: Seq<bool>|
                            self.as_map().contains_key(k) && is_prefix_of(
                                k,
                                pk,
                            ) implies exists|n: int|
                            0 <= n < entries@.len() && entry_key(#[trigger] entries@[n])
                                == k by {
                            let i = lemma_has_key_unique(t, k);
                            assert(key_of(t, i).len() <= ck.len());
                            lemma_prefix_linear(k, ck, pk);
                        }
                    }
                    break ;
                },
            }
        }
        let ghost es = entries@;
        let r = Cover { entries, pos: 0 };
        proof {
            assert(r.remaining() =~= es);
            let m = restrict_covering(self.as_map(), pk);
            assert forall|n: int| 0 <= n < r.remaining().len() implies m.contains_key(
                entry_key(#[trigger] r.remaining()[n]),
            ) && entry_val(r.remaining()[n]) == m[entry_key(r.remaining()[n])] by {
                lemma_prefix_trans(
                    entry_key(r.remaining()[n]),
                    key_of(t, cur as int),
                    pk,
                );
            }
        }
        r
    }

    /// The covering prefixes of `prefix`, least specific first.
    pub fn cover_keys<'a>(&'a self, prefix: &'a P) -> (r: CoverKeys<'a, P, T>)
        requires
            self.wf(),
        ensures
            r.wf(),
            cover_entries_match(
                restrict_covering(self.as_map(), prefix.bits()),
                r.remaining(),
            ),
    {
        CoverKeys { inner: self.cover(prefix) }
    }

    /// The covering values of `prefix`, least specific first.
    pub fn cover_values<'a>(&'a self, prefix: &'a P) -> (r: CoverValues<'a, P, T>)
        requires
            self.wf(),
        ensures
            r.wf(),
            cover_entries_match(
                restrict_covering(self.as_map(), prefix.bits()),
                r.remaining(),
            ),
    {
        CoverValues { inner: self.cover(prefix) }
    }
}


/// The bit string of an owned entry.
pub open spec fn pair_key<P: Prefix, T>(e: (P, T)) -> Seq<bool> {
    e.0.bits()
}

/// The value of an owned entry.
pub open spec fn pair_val<P: Prefix, T>(e: (P, T)) -> T {
    e.1
}

/// `es` lists exactly the entries of `m`, in ascending lexicographic key
/// order, as owned pairs.
pub open spec fn pairs_match<P: Prefix, T>(m: Map<Seq<bool>, T>, es: Seq<(P, T)>) -> bool {
    &&& forall|n: int|
        0 <= n < es.len() ==> m.contains_key(pair_key(#[trigger] es[n])) && pair_val(es[n])
            == m[pair_key(es[n])]
    &&& forall|k: Seq<bool>|
        #[trigger] m.contains_key(k) ==> exists|n: int|
            0 <= n < es.len() && pair_key(#[trigger] es[n]) == k
    &&& forall|n1: int, n2: int|
        0 <= n1 < n2 < es.len() ==> lex_lt(pair_key(#[trigger] es[n1]), pair_key(
            #[trigger] es[n2],
        ))
}

/// Move the prefix/value pairs of the given valued slots out of the arena,
/// in the order given.  The slots must be pairwise distinct.
fn drain_pairs<P: Prefix, T>(table: Table<P, T>, idxs: &Vec<usize>) -> (r: Vec<(P, T)>)
    requires
        forall|n: int|
            0 <= n < idxs@.len() ==> (#[trigger] idxs@[n] as int) < table.view_nodes().len()
                && table.view_nodes()[idxs@[n] as int].value is Some,
        forall|n1: int, n2: int|
            0 <= n1 < n2 < idxs@.len() ==> #[trigger] idxs@[n1] != #[trigger] idxs@[n2],
    ensures
        r@.len() == idxs@.len(),
        forall|n: int|
            0 <= n < r@.len() ==> pair_key(#[trigger] r@[n]) == key_of(
                table.view_nodes(),
                idxs@[n] as int,
            ) && pair_val(r@[n]) == table.view_nodes()[idxs@[n] as int].value->0,
{
    let ghost t0 = table.view_nodes();
    let mut table = table;
    let mut r: Vec<(P, T)> = Vec::new();
    let mut i: usize = 0;
    while i < idxs.len()
        invariant
            table.view_nodes().len() == t0.len(),
            i <= idxs@.len(),
            r@.len() == i,
            forall|n: int|
                0 <= n < idxs@.len() ==> (#[trigger] idxs@[n] as int) < t0.len() && t0[
                    idxs@[n] as int].value is Some,
            forall|n1: int, n2: int|
                0 <= n1 < n2 < idxs@.len() ==> #[trigger] idxs@[n1] != #[trigger] idxs@[n2],
            forall|n: int|
                i <= n < idxs@.len() ==> #[trigger] table.view_nodes()[idxs@[n] as int] == t0[
                    idxs@[n] as int],
            forall|n: int|
                0 <= n < i ==> pair_key(#[trigger] r@[n]) == key_of(t0, idxs@[n] as int)
                    && pair_val(r@[n]) == t0[idxs@[n] as int].value->0,
        decreases idxs@.len() - i,
    {
        let idx = idxs[i];
        let mut vslot: Option<T> = None;
        core::mem::swap(&mut table.nodes[idx].value, &mut vslot);
        let mut pslot: P = P::zero();
        core::mem::swap(&mut table.nodes[idx].prefix, &mut pslot);
        let v = vslot.unwrap();
        r.push((pslot, v));
        i = i + 1;
    }
    r
}

/// A consuming iterator over the entries of a [`PrefixMap`], in ascending
/// lexicographic order of their prefixes.
pub struct IntoIter<P, T> {
    // stored in descending order; popping from the back yields ascending
    entries: Vec<(P, T)>,
}

impl<P: Prefix, T> IntoIter<P, T> {
    /// The entries not yet yielded, in the order they will come.
    pub closed spec fn remaining(&self) -> Seq<(P, T)> {
        self.entries@.reverse()
    }

    /// Yield the next owned entry, or `None` when the iteration is done.
    pub fn next(&mut self) -> (r: Option<(P, T)>)
        ensures
            match r {
                Some(e) => {
                    &&& old(self).remaining().len() > 0
                    &&& e == old(self).remaining()[0]
                    &&& final(self).remaining() == old(self).remaining().skip(1)
                },
                None => {
                    &&& old(self).remaining().len() == 0
                    &&& final(self).remaining().len() == 0
                },
            },
    {
        let r = self.entries.pop();
        proof {
            if old(self).entries@.len() > 0 {
                assert(self.remaining() =~= old(self).remaining().skip(1));
            }
        }
        r
    }
}

/// A consuming iterator over the prefixes of a [`PrefixMap`], in ascending
/// lexicographic order.
pub struct IntoKeys<P, T> {
    inner: IntoIter<P, T>,
}

impl<P: Prefix, T> IntoKeys<P, T> {
    pub closed spec fn remaining(&self) -> Seq<(P, T)> {
        self.inner.remaining()
    }

    /// Yield the next owned prefix, or `None` when the iteration is done.
    pub fn next(&mut self) -> (r: Option<P>)
        ensures
            match r {
                Some(p) => {
                    &&& old(self).remaining().len() > 0
                    &&& p == old(self).remaining()[0].0
                    &&& final(self).remaining() == old(self).remaining().skip(1)
                },
                None => {
                    &&& old(self).remaining().len() == 0
                    &&& final(self).remaining().len() == 0
                },
            },
    {
        match self.inner.next() {
            Some(e) => Some(e.0),
            None => None,
        }
    }
}

/// A consuming iterator over the values of a [`PrefixMap`], in ascending
/// lexicographic order of their prefixes.
pub struct IntoValues<P, T> {
    inner: IntoIter<P, T>,
}

impl<P: Prefix, T> IntoValues<P, T> {
    pub closed spec fn remaining(&self) -> Seq<(P, T)> {
        self.inner.remaining()
    }

    /// Yield the next owned value, or `None` when the iteration is done.
    pub fn next(&mut self) -> (r: Option<T>)
        ensures
            match r {
                Some(v) => {
                    &&& old(self).remaining().len() > 0
                    &&& v == old(self).remaining()[0].1
                    &&& final(self).remaining() == old(self).remaining().skip(1)
                },
                None => {
                    &&& old(self).remaining().len() == 0
                    &&& final(self).remaining().len() == 0
                },
            },
    {
        match self.inner.next() {
            Some(e) => Some(e.1),
            None => None,
        }
    }
}

impl<P: Prefix, T> PrefixMap<P, T> {
    /// Consume the arena into its valued slots below `start`, yielding owned
    /// pairs in ascending order.  `start`, when present, must be the root of
    /// the subtree holding exactly the stored keys extending `pk`.
    fn into_pairs(table: Table<P, T>, start: Option<usize>, Ghost(pk): Ghost<Seq<bool>>) -> (r:
        IntoIter<P, T>)
        requires
            table_wf(table.view_nodes()),
            ({
                let t = table.view_nodes();
                match start {
                    Some(i) => {
                        &&& (i as int) < t.len()
                        &&& reach(t, i as int)
                        &&& forall|j: int|
                            0 <= j < t.len() && #[trigger] reach(t, j) ==> (is_prefix_of(
                                pk,
                                key_of(t, j),
                            ) <==> in_subtree(t, i as int, j))
                    },
                    None => forall|k: Seq<bool>|
                        #[trigger] contents(t).contains_key(k) ==> !is_prefix_of(pk, k),
                }
            }),
        ensures
            pairs_match(restrict_below(contents(table.view_nodes()), pk), r.remaining()),
    {
        let ghost t = table.view_nodes();
        let idxs = dfs_order(&table, start);
        // reverse the order so that popping from the back goes ascending
        let mut rev: Vec<usize> = Vec::new();
        let mut i: usize = idxs.len();
        while i > 0
            invariant
                i <= idxs@.len(),
                rev@.len() == idxs@.len() - i,
                forall|n: int|
                    0 <= n < rev@.len() ==> #[trigger] rev@[n] == idxs@[idxs@.len() - 1 - n],
            decreases i,
        {
            i = i - 1;
            rev.push(idxs[i]);
        }
        proof {
            assert forall|n: int| 0 <= n < rev@.len() implies (#[trigger] rev@[n] as int)
                < t.len() && t[rev@[n] as int].value is Some by {
                assert((idxs@[idxs@.len() - 1 - n] as int) < t.len());
            }
            assert forall|n1: int, n2: int| 0 <= n1 < n2 < rev@.len() implies #[trigger]
            rev@[n1] != #[trigger] rev@[n2] by {
                let m1 = idxs@.len() - 1 - n1;
                let m2 = idxs@.len() - 1 - n2;
                assert(lex_lt(key_of(t, idxs@[m2] as int), key_of(t, idxs@[m1] as int)));
                if rev@[n1] == rev@[n2] {
                    crate::bits::lemma_lex_irrefl(key_of(t, idxs@[m1] as int));
                }
            }
        }
        let entries = drain_pairs(table, &rev);
        let r = IntoIter { entries };
        proof {
            let es = r.remaining();
            let mr = restrict_below(contents(t), pk);
            assert(es.len() == idxs@.len());
            assert forall|n: int| 0 <= n < es.len() implies pair_key(#[trigger] es[n]) == key_of(
                t,
                idxs@[n] as int,
            ) && pair_val(es[n]) == t[idxs@[n] as int].value->0 by {
                let m = idxs@.len() - 1 - n;
                assert(es[n] == entries@[m]);
                assert(rev@[m] == idxs@[idxs@.len() - 1 - m]);
            }
            assert forall|n: int| 0 <= n < es.len() implies mr.contains_key(pair_key(
                #[trigger] es[n],
            )) && pair_val(es[n]) == mr[pair_key(es[n])] by {
                let j = idxs@[n] as int;
                let k = key_of(t, j);
                assert(has_key(t, k));
                let iu = lemma_has_key_unique(t, k);
                assert(iu == j);
                assert(reach(t, j));
                assert(in_subtree(t, start->0 as int, j));
                assert(is_prefix_of(pk, k));
            }
            assert forall|k: Seq<bool>| #[trigger] mr.contains_key(k) implies exists|n: int|
                0 <= n < es.len() && pair_key(#[trigger] es[n]) == k by {
                let i2 = lemma_has_key_unique(t, k);
                assert(reach(t, i2));
                assert(start is Some);
                assert(in_subtree(t, start->0 as int, i2));
                let n = choose|n: int| 0 <= n < idxs@.len() && #[trigger] idxs@[n] as int == i2;
                assert(pair_key(es[n]) == k);
            }
            assert forall|n1: int, n2: int| 0 <= n1 < n2 < es.len() implies lex_lt(
                pair_key(#[trigger] es[n1]),
                pair_key(#[trigger] es[n2]),
            ) by {
                assert(pair_key(es[n1]) == key_of(t, idxs@[n1] as int));
                assert(pair_key(es[n2]) == key_of(t, idxs@[n2] as int));
                assert(lex_lt(key_of(t, idxs@[n1] as int), key_of(t, idxs@[n2] as int)));
            }
        }
        r
    }

    /// Consume the map, yielding all entries as owned pairs in ascending
    /// lexicographic order of their prefixes.
    pub fn into_iter(self) -> (r: IntoIter<P, T>)
        requires
            self.wf(),
        ensures
            pairs_match(self.as_map(), r.remaining()),
    {
        let ghost t = self.table.view_nodes();
        proof {
            assert(reach(t, 0));
            assert forall|j: int| 0 <= j < t.len() && #[trigger] reach(t, j) implies (
            is_prefix_of(Seq::<bool>::empty(), key_of(t, j)) <==> in_subtree(t, 0, j)) by {
                lemma_reach_is_root_subtree(t, j);
                assert(Seq::<bool>::empty() =~= key_of(t, j).take(0));
            }
        }
        let r = Self::into_pairs(self.table, Some(0), Ghost(Seq::<bool>::empty()));
        proof {
            let m = restrict_below(contents(t), Seq::<bool>::empty());
            assert forall|k: Seq<bool>| true implies #[trigger] m.contains_key(k) == contents(
                t,
            ).contains_key(k) by {
                assert(Seq::<bool>::empty() =~= k.take(0));
            }
            assert(m =~= contents(t));
        }
        r
    }

    /// Consume the map, yielding all prefixes in ascending lexicographic
    /// order.
    pub fn into_keys(self) -> (r: IntoKeys<P, T>)
        requires
            self.wf(),
        ensures
            pairs_match(self.as_map(), r.remaining()),
    {
        IntoKeys { inner: self.into_iter() }
    }

    /// Consume the map, yielding all values in ascending lexicographic order
    /// of their prefixes.
    pub fn into_values(self) -> (r: IntoValues<P, T>)
        requires
            self.wf(),
        ensures
            pairs_match(self.as_map(), r.remaining()),
    {
        IntoValues { inner: self.into_iter() }
    }

    /// Consume the map, yielding the entries whose prefixes `prefix`
    /// contains, in ascending lexicographic order.
    pub fn into_children(self, prefix: &P) -> (r: IntoIter<P, T>)
        requires
            self.wf(),
        ensures
            pairs_match(restrict_below(self.as_map(), prefix.bits()), r.remaining()),
    {
        let start = self.subtree_root(prefix);
        proof {
            assert(self.as_map() == contents(self.table.view_nodes()));
        }
        Self::into_pairs(self.table, start, Ghost(prefix.bits()))
    }
}


/// A mutable iterator over a [`PrefixMap`]: the valued slots in ascending
/// lexicographic order.  The iterator holds no borrow; each step takes the
/// map it was created from and hands out one mutable value at a time.
pub struct IterMut<P, T> {
    idxs: Vec<usize>,
    pos: usize,
    _keys: core::marker::PhantomData<P>,
    _values: core::marker::PhantomData<T>,
}

impl<P: Prefix, T> IterMut<P, T> {
    /// The iterator belongs to `m`: every slot it walks is a distinct valued
    /// reachable slot, and their keys ascend.
    pub closed spec fn valid(&self, m: PrefixMap<P, T>) -> bool {
        let t = m.table.view_nodes();
        &&& m.wf()
        &&& self.pos <= self.idxs@.len()
        &&& forall|n: int|
            0 <= n < self.idxs@.len() ==> (#[trigger] self.idxs@[n] as int) < t.len() && t[
                self.idxs@[n] as int].value is Some && reach(t, self.idxs@[n] as int)
        &&& forall|n1: int, n2: int|
            0 <= n1 < n2 < self.idxs@.len() ==> lex_lt(
                key_of(t, #[trigger] self.idxs@[n1] as int),
                key_of(t, #[trigger] self.idxs@[n2] as int),
            )
    }

    /// The keys not yet visited, in the order they will come.
    pub closed spec fn remaining(&self, m: PrefixMap<P, T>) -> Seq<Seq<bool>> {
        let t = m.table.view_nodes();
        Seq::new(
            (self.idxs@.len() - self.pos) as nat,
            |q: int| key_of(t, self.idxs@[self.pos + q] as int),
        )
    }

    /// Yield the next entry — the prefix, and the value mutably — or `None`
    /// when the iteration is done.  The final contents bind the yielded
    /// prefix to whatever the caller leaves in the reference.
    pub fn next<'a>(&mut self, m: &'a mut PrefixMap<P, T>) -> (r: Option<(&'a P, &'a mut T)>)
        requires
            old(self).valid(*old(m)),
        ensures
            final(m).wf(),
            final(self).valid(*final(m)),
            match r {
                Some(pv) => {
                    &&& old(self).remaining(*old(m)).len() > 0
                    &&& pv.0.bits() == old(self).remaining(*old(m))[0]
                    &&& old(m).as_map().contains_key(pv.0.bits())
                    &&& *pv.1 == old(m).as_map()[pv.0.bits()]
                    &&& final(m).as_map() == old(m).as_map().insert(pv.0.bits(), *final(pv.1))
                    &&& final(self).remaining(*final(m)).len() == old(self).remaining(
                        *old(m),
                    ).len() - 1
                    &&& forall|q: int|
                        0 <= q < final(self).remaining(*final(m)).len()
                            ==> #[trigger] (final(self).remaining(*final(m))[q]) == old(
                            self,
                        ).remaining(*old(m))[q + 1]
                },
                None => {
                    &&& old(self).remaining(*old(m)).len() == 0
                    &&& final(self).remaining(*final(m)).len() == 0
                    &&& final(m).as_map() == old(m).as_map()
                },
            },
    {
        proof {
            m.lemma_model();
        }
        let ghost t1 = m.table.view_nodes();
        if self.pos >= self.idxs.len() {
            return None;
        }
        let i = self.idxs[self.pos];
        self.pos = self.pos + 1;
        proof {
            assert(has_key(t1, key_of(t1, i as int)));
            let iu = lemma_has_key_unique(t1, key_of(t1, i as int));
            assert(iu == i as int);
        }
        let node = crate::map::node_mut(&mut m.table, i);
        match crate::map::node_prefix_value_mut(node) {
            Some(pv) => {
                proof {
                    let t2 = t1.update(
                        i as int,
                        Node {
                            prefix: t1[i as int].prefix,
                            value: Some(*final(pv.1)),
                            left: t1[i as int].left,
                            right: t1[i as int].right,
                        },
                    );
                    assert(crate::inner::same_shape(t1, t2)) by {
                        assert(forall|n: int|
                            0 <= n < t1.len() && n != i as int ==> #[trigger] t2[n] == t1[n]);
                    }
                    crate::inner::lemma_contents_value_update(t1, t2, i as int);
                    crate::inner::lemma_same_shape_links(t1, t2);
                    assert forall|n: int| 0 <= n < t2.len() implies #[trigger] key_of(t2, n)
                        == key_of(t1, n) && reach(t2, n) == reach(t1, n) && t2[n].value is Some
                        == (n == i as int || t1[n].value is Some) by {
                        crate::inner::lemma_same_shape_reach(t1, t2, n);
                        if n != i as int {
                            assert(t2[n] == t1[n]);
                        }
                    }
                }
                Some(pv)
            },
            None => vstd::pervasive::unreached(),
        }
    }
}

/// A mutable iterator over the values of a [`PrefixMap`], in ascending
/// lexicographic order of their prefixes.
pub struct ValuesMut<P, T> {
    inner: IterMut<P, T>,
}

impl<P: Prefix, T> ValuesMut<P, T> {
    pub closed spec fn valid(&self, m: PrefixMap<P, T>) -> bool {
        self.inner.valid(m)
    }

    /// The underlying entry iterator.
    pub closed spec fn inner_iter(&self) -> IterMut<P, T> {
        self.inner
    }

    /// Wrap an entry iterator into a value iterator.
    pub(crate) fn wrap(inner: IterMut<P, T>) -> (r: Self)
        ensures
            r.inner_iter() == inner,
            forall|m: PrefixMap<P, T>| #[trigger] r.valid(m) == inner.valid(m),
            forall|m: PrefixMap<P, T>| #[trigger] r.remaining(m) == inner.remaining(m),
    {
        ValuesMut { inner }
    }

    /// The keys whose values have not yet been yielded.
    pub closed spec fn remaining(&self, m: PrefixMap<P, T>) -> Seq<Seq<bool>> {
        self.inner.remaining(m)
    }

    /// Yield the next value mutably, or `None` when the iteration is done.
    pub fn next<'a>(&mut self, m: &'a mut PrefixMap<P, T>) -> (r: Option<&'a mut T>)
        requires
            old(self).valid(*old(m)),
        ensures
            final(m).wf(),
            final(self).valid(*final(m)),
            match r {
                Some(v) => {
                    &&& old(self).remaining(*old(m)).len() > 0
                    &&& old(m).as_map().contains_key(old(self).remaining(*old(m))[0])
                    &&& *v == old(m).as_map()[old(self).remaining(*old(m))[0]]
                    &&& final(m).as_map() == old(m).as_map().insert(
                        old(self).remaining(*old(m))[0],
                        *final(v),
                    )
                    &&& final(self).remaining(*final(m)).len() == old(self).remaining(
                        *old(m),
                    ).len() - 1
                    &&& forall|q: int|
                        0 <= q < final(self).remaining(*final(m)).len()
                            ==> #[trigger] (final(self).remaining(*final(m))[q]) == old(
                            self,
                        ).remaining(*old(m))[q + 1]
                },
                None => {
                    &&& old(self).remaining(*old(m)).len() == 0
                    &&& final(self).remaining(*final(m)).len() == 0
                    &&& final(m).as_map() == old(m).as_map()
                },
            },
    {
        match self.inner.next(m) {
            Some(pv) => Some(pv.1),
            None => None,
        }
    }
}

impl<P: Prefix, T> PrefixMap<P, T> {
    /// A mutable iterator over the stored entries whose keys extend `pk`,
    /// seeded at the subtree root known to hold exactly those keys.
    pub(crate) fn iter_mut_seeded(&self, start: Option<usize>, Ghost(pk): Ghost<Seq<bool>>) -> (r:
        IterMut<P, T>)
        requires
            self.wf(),
            ({
                let t = self.table.view_nodes();
                match start {
                    Some(i) => {
                        &&& (i as int) < t.len()
                        &&& reach(t, i as int)
                        &&& forall|j: int|
                            0 <= j < t.len() && #[trigger] reach(t, j) ==> (is_prefix_of(
                                pk,
                                key_of(t, j),
                            ) <==> in_subtree(t, i as int, j))
                    },
                    None => forall|k: Seq<bool>|
                        #[trigger] self.as_map().contains_key(k) ==> !is_prefix_of(pk, k),
                }
            }),
        ensures
            r.valid(*self),
            forall|q: int|
                0 <= q < r.remaining(*self).len() ==> restrict_below(
                    self.as_map(),
                    pk,
                ).contains_key(#[trigger] r.remaining(*self)[q]),
            forall|k: Seq<bool>|
                #[trigger] restrict_below(self.as_map(), pk).contains_key(k) ==> exists|q: int|
                    0 <= q < r.remaining(*self).len() && #[trigger] r.remaining(*self)[q] == k,
            forall|q1: int, q2: int|
                0 <= q1 < q2 < r.remaining(*self).len() ==> lex_lt(
                    #[trigger] r.remaining(*self)[q1],
                    #[trigger] r.remaining(*self)[q2],
                ),
    {
        let ghost t = self.table.view_nodes();
        let idxs = dfs_order(&self.table, start);
        let r = IterMut {
            idxs,
            pos: 0,
            _keys: core::marker::PhantomData,
            _values: core::marker::PhantomData,
        };
        proof {
            if start is None && r.idxs@.len() > 0 {
                assert((r.idxs@[0] as int) < t.len());
                assert(false);
            }
            assert forall|n: int| 0 <= n < r.idxs@.len() implies (#[trigger] r.idxs@[n] as int)
                < t.len() && t[r.idxs@[n] as int].value is Some && reach(t, r.idxs@[n] as int) by {
                assert(in_subtree(t, start->0 as int, r.idxs@[n] as int));
            }
            assert forall|q: int| 0 <= q < r.remaining(*self).len() implies restrict_below(
                self.as_map(),
                pk,
            ).contains_key(#[trigger] r.remaining(*self)[q]) by {
                let i = r.idxs@[q] as int;
                assert(r.remaining(*self)[q] == key_of(t, i));
                assert(has_key(t, key_of(t, i)));
                let iu = lemma_has_key_unique(t, key_of(t, i));
                assert(iu == i);
                assert(in_subtree(t, start->0 as int, i));
                assert(is_prefix_of(pk, key_of(t, i)));
            }
            assert forall|k: Seq<bool>|
                #[trigger] restrict_below(self.as_map(), pk).contains_key(k) implies exists|q: int|
                0 <= q < r.remaining(*self).len() && #[trigger] r.remaining(*self)[q] == k by {
                let i = lemma_has_key_unique(t, k);
                assert(reach(t, i));
                assert(in_subtree(t, start->0 as int, i));
                let n = choose|n: int| 0 <= n < r.idxs@.len() && #[trigger] r.idxs@[n] as int == i;
                assert(r.remaining(*self)[n] == k);
            }
        }
        r
    }

    /// A mutable iterator over all entries, in ascending lexicographic order
    /// of their prefixes.
    pub fn iter_mut(&self) -> (r: IterMut<P, T>)
        requires
            self.wf(),
        ensures
            r.valid(*self),
            forall|q: int|
                0 <= q < r.remaining(*self).len() ==> self.as_map().contains_key(
                    #[trigger] r.remaining(*self)[q],
                ),
            forall|k: Seq<bool>|
                #[trigger] self.as_map().contains_key(k) ==> exists|q: int|
                    0 <= q < r.remaining(*self).len() && #[trigger] r.remaining(*self)[q] == k,
            forall|q1: int, q2: int|
                0 <= q1 < q2 < r.remaining(*self).len() ==> lex_lt(
                    #[trigger] r.remaining(*self)[q1],
                    #[trigger] r.remaining(*self)[q2],
                ),
    {
        let ghost t = self.table.view_nodes();
        proof {
            assert(reach(t, 0));
            assert forall|j: int| 0 <= j < t.len() && #[trigger] reach(t, j) implies (
            is_prefix_of(Seq::<bool>::empty(), key_of(t, j)) <==> in_subtree(t, 0, j)) by {
                lemma_reach_is_root_subtree(t, j);
                assert(Seq::<bool>::empty() =~= key_of(t, j).take(0));
            }
        }
        let r = self.iter_mut_seeded(Some(0), Ghost(Seq::<bool>::empty()));
        proof {
            let mr = restrict_below(self.as_map(), Seq::<bool>::empty());
            assert forall|k: Seq<bool>| true implies #[trigger] mr.contains_key(k)
                == self.as_map().contains_key(k) by {
                assert(Seq::<bool>::empty() =~= k.take(0));
            }
            assert(mr =~= self.as_map());
        }
        r
    }

    /// A mutable iterator over the entries whose prefixes `prefix` contains,
    /// in ascending lexicographic order.
    pub fn children_mut(&self, prefix: &P) -> (r: IterMut<P, T>)
        requires
            self.wf(),
        ensures
            r.valid(*self),
            forall|q: int|
                0 <= q < r.remaining(*self).len() ==> restrict_below(
                    self.as_map(),
                    prefix.bits(),
                ).contains_key(#[trigger] r.remaining(*self)[q]),
            forall|k: Seq<bool>|
                #[trigger] restrict_below(self.as_map(), prefix.bits()).contains_key(k)
                    ==> exists|q: int|
                    0 <= q < r.remaining(*self).len() && #[trigger] r.remaining(*self)[q] == k,
            forall|q1: int, q2: int|
                0 <= q1 < q2 < r.remaining(*self).len() ==> lex_lt(
                    #[trigger] r.remaining(*self)[q1],
                    #[trigger] r.remaining(*self)[q2],
                ),
    {
        let start = self.subtree_root(prefix);
        self.iter_mut_seeded(start, Ghost(prefix.bits()))
    }

    /// A mutable iterator over all values, in ascending lexicographic order
    /// of their prefixes.
    pub fn values_mut(&self) -> (r: ValuesMut<P, T>)
        requires
            self.wf(),
        ensures
            r.valid(*self),
            forall|q: int|
                0 <= q < r.remaining(*self).len() ==> self.as_map().contains_key(
                    #[trigger] r.remaining(*self)[q],
                ),
            forall|k: Seq<bool>|
                #[trigger] self.as_map().contains_key(k) ==> exists|q: int|
                    0 <= q < r.remaining(*self).len() && #[trigger] r.remaining(*self)[q] == k,
            forall|q1: int, q2: int|
                0 <= q1 < q2 < r.remaining(*self).len() ==> lex_lt(
                    #[trigger] r.remaining(*self)[q1],
                    #[trigger] r.remaining(*self)[q2],
                ),
    {
        let r = ValuesMut { inner: self.iter_mut() };
        proof {
            assert forall|k: Seq<bool>|
                #[trigger] self.as_map().contains_key(k) implies exists|q: int|
                0 <= q < r.remaining(*self).len() && #[trigger] r.remaining(*self)[q] == k by {
                let q = choose|q: int|
                    0 <= q < r.inner.remaining(*self).len() && #[trigger] r.inner.remaining(
                        *self,
                    )[q] == k;
                assert(r.remaining(*self)[q] == k);
            }
        }
        r
    }
}

} // verus!
