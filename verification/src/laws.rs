//! The laws the library satisfies, stated and proved once over the abstract
//! contents: every public operation's contract is phrased over the same
//! model, so these lemmas transfer to any sequence of calls.

use vstd::prelude::*;
use crate::bits::{lemma_extend_one, lemma_prefix_index, lemma_proper_prefix_shorter};
use crate::map::fold_entries;
use crate::map::iter::restrict_below;

verus! {

/// The iteration order is a strict total order on keys: irreflexive,
/// transitive, and total on distinct bit strings.  "Strictly ascending"
/// in the iterator contracts therefore pins the sequence down completely.
pub proof fn lemma_iteration_order_strict(a: Seq<bool>, b: Seq<bool>, c: Seq<bool>)
    ensures
        !crate::bits::lex_lt(a, a),
        crate::bits::lex_lt(a, b) && crate::bits::lex_lt(b, c) ==> crate::bits::lex_lt(a, c),
        a != b ==> crate::bits::lex_lt(a, b) || crate::bits::lex_lt(b, a),
{
    crate::bits::lemma_lex_irrefl(a);
    if crate::bits::lex_lt(a, b) && crate::bits::lex_lt(b, c) {
        crate::bits::lemma_lex_trans(a, b, c);
    }
    if a != b {
        crate::bits::lemma_lex_total(a, b);
    }
}

/// The last value a sequence of insertions binds to a key, if any.
pub open spec fn last_entry_for<T>(ps: Seq<(Seq<bool>, T)>, p: Seq<bool>) -> Option<T>
    decreases ps.len(),
{
    if ps.len() == 0 {
        None
    } else if ps.last().0 == p {
        Some(ps.last().1)
    } else {
        last_entry_for(ps.drop_last(), p)
    }
}

/// Exactness: after any sequence of insertions, a key holds exactly the most
/// recently inserted value for that key, and nothing otherwise.
pub proof fn lemma_exactness<T>(ps: Seq<(Seq<bool>, T)>, p: Seq<bool>)
    ensures
        fold_entries(ps).contains_key(p) == (last_entry_for(ps, p) is Some),
        last_entry_for(ps, p) is Some ==> fold_entries(ps)[p] == last_entry_for(ps, p)->0,
    decreases ps.len(),
{
    if ps.len() > 0 {
        lemma_exactness(ps.drop_last(), p);
    }
}

/// Shape canonicity, at the level of the stored contents: two insertion
/// histories that bind the same last value to every key build the same map,
/// whatever the order or repetition of their entries.
pub proof fn lemma_contents_from_history<T>(ps1: Seq<(Seq<bool>, T)>, ps2: Seq<(Seq<bool>, T)>)
    requires
        forall|p: Seq<bool>| #[trigger] last_entry_for(ps1, p) == last_entry_for(ps2, p),
    ensures
        fold_entries(ps1) == fold_entries(ps2),
{
    assert(fold_entries(ps1) =~= fold_entries(ps2)) by {
        assert forall|p: Seq<bool>| true implies #[trigger] fold_entries(ps1).contains_key(p)
            == fold_entries(ps2).contains_key(p) && (fold_entries(ps1).contains_key(p)
            ==> fold_entries(ps1)[p] == fold_entries(ps2)[p]) by {
            lemma_exactness(ps1, p);
            lemma_exactness(ps2, p);
        }
    }
}

/// Insertions under distinct keys commute: the contents depend on what was
/// inserted, not on the order.
pub proof fn lemma_insert_commutes<T>(
    m: Map<Seq<bool>, T>,
    p1: Seq<bool>,
    v1: T,
    p2: Seq<bool>,
    v2: T,
)
    requires
        p1 != p2,
    ensures
        m.insert(p1, v1).insert(p2, v2) == m.insert(p2, v2).insert(p1, v1),
{
    assert(m.insert(p1, v1).insert(p2, v2) =~= m.insert(p2, v2).insert(p1, v1));
}

/// A later insertion under the same key overwrites an earlier one entirely.
pub proof fn lemma_insert_overwrites<T>(m: Map<Seq<bool>, T>, p: Seq<bool>, v1: T, v2: T)
    ensures
        m.insert(p, v1).insert(p, v2) == m.insert(p, v2),
{
    assert(m.insert(p, v1).insert(p, v2) =~= m.insert(p, v2));
}

/// Split disjointness: below any prefix `p`, the keys split into `p` itself,
/// the keys extending `p` leftward, and the keys extending `p` rightward —
/// and the two branches never overlap.
pub proof fn lemma_split_partition<T>(m: Map<Seq<bool>, T>, p: Seq<bool>)
    ensures
        forall|k: Seq<bool>|
            !(#[trigger] restrict_below(m, p.push(false)).contains_key(k) && restrict_below(
                m,
                p.push(true),
            ).contains_key(k)),
        forall|k: Seq<bool>|
            #[trigger] restrict_below(m, p).contains_key(k) ==> k == p || restrict_below(
                m,
                p.push(false),
            ).contains_key(k) || restrict_below(m, p.push(true)).contains_key(k),
        forall|k: Seq<bool>, s: bool|
            #[trigger] restrict_below(m, p.push(s)).contains_key(k) ==> restrict_below(
                m,
                p,
            ).contains_key(k) && k != p,
        forall|k: Seq<bool>, s: bool|
            #[trigger] restrict_below(m, p.push(s)).contains_key(k) ==> restrict_below(
                m,
                p.push(s),
            )[k] == restrict_below(m, p)[k],
{
    assert forall|k: Seq<bool>|
        !(#[trigger] restrict_below(m, p.push(false)).contains_key(k) && restrict_below(
            m,
            p.push(true),
        ).contains_key(k)) by {
        if restrict_below(m, p.push(false)).contains_key(k) && restrict_below(
            m,
            p.push(true),
        ).contains_key(k) {
            lemma_prefix_index(p.push(false), k);
            lemma_prefix_index(p.push(true), k);
            assert(p.push(false)[p.len() as int] == false);
            assert(p.push(true)[p.len() as int] == true);
            assert(k[p.len() as int] == false && k[p.len() as int] == true);
        }
    }
    assert forall|k: Seq<bool>| #[trigger] restrict_below(m, p).contains_key(k) implies k == p
        || restrict_below(m, p.push(false)).contains_key(k) || restrict_below(
        m,
        p.push(true),
    ).contains_key(k) by {
        if k != p {
            lemma_proper_prefix_shorter(p, k);
            lemma_extend_one(p, k);
        }
    }
    assert forall|k: Seq<bool>, s: bool|
        #[trigger] restrict_below(m, p.push(s)).contains_key(k) implies restrict_below(
        m,
        p,
    ).contains_key(k) && k != p by {
        lemma_prefix_index(p.push(s), k);
        crate::bits::lemma_prefix_from_index(p, k);
        assert(k.len() >= p.push(s).len() > p.len());
    }
}

/// Removal idempotence: after removing a key it is gone, and re-inserting a
/// value under it restores exactly the map an insertion alone would give,
/// leaving every other key untouched.
pub proof fn lemma_remove_reinsert<T>(m: Map<Seq<bool>, T>, p: Seq<bool>, v: T)
    ensures
        !m.remove(p).contains_key(p),
        m.remove(p).insert(p, v) == m.insert(p, v),
        forall|q: Seq<bool>|
            q != p ==> #[trigger] m.remove(p).contains_key(q) == m.contains_key(q),
        forall|q: Seq<bool>|
            q != p && m.contains_key(q) ==> #[trigger] m.remove(p)[q] == m[q],
{
    assert(m.remove(p).insert(p, v) =~= m.insert(p, v));
}

} // verus!
