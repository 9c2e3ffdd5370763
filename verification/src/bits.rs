//! The mathematical theory of bit strings (`Seq<bool>`) that every contract
//! of this crate is stated over: the containment (initial-segment) order, the
//! branch direction below a prefix, the lexicographic order on keys, and the
//! longest common prefix of two bit strings.

use vstd::prelude::*;

verus! {

/// `a` contains `b`: the bit range denoted by `a` includes everything denoted
/// by `b`, i.e. `a` is an initial segment of `b`.  Reflexive.
pub open spec fn is_prefix_of(a: Seq<bool>, b: Seq<bool>) -> bool {
    a.len() <= b.len() && a == b.take(a.len() as int)
}

/// `a` strictly contains `b`.
pub open spec fn is_strict_prefix_of(a: Seq<bool>, b: Seq<bool>) -> bool {
    is_prefix_of(a, b) && a.len() < b.len()
}

/// At branching point `a`, does `b` fall on the bit-value-1 ("right") side?
/// Meaningful when `a` is a strict prefix of `b`.
pub open spec fn branch_right(a: Seq<bool>, b: Seq<bool>) -> bool {
    b[a.len() as int]
}

/// Strict lexicographic order on bit strings, with a proper prefix ordered
/// before each of its extensions and `false` before `true`.
pub open spec fn lex_lt(a: Seq<bool>, b: Seq<bool>) -> bool
    decreases a.len(),
{
    if a.len() == 0 {
        b.len() > 0
    } else if b.len() == 0 {
        false
    } else if a[0] == b[0] {
        lex_lt(a.skip(1), b.skip(1))
    } else {
        !a[0] && b[0]
    }
}

/// The number of leading positions on which `a` and `b` agree.
pub open spec fn common_len(a: Seq<bool>, b: Seq<bool>) -> nat
    decreases a.len(),
{
    if a.len() == 0 || b.len() == 0 || a[0] != b[0] {
        0
    } else {
        1 + common_len(a.skip(1), b.skip(1))
    }
}

/// The longest bit string that is a prefix of both `a` and `b`.
pub open spec fn common_prefix(a: Seq<bool>, b: Seq<bool>) -> Seq<bool> {
    a.take(common_len(a, b) as int)
}

pub proof fn lemma_prefix_refl(a: Seq<bool>)
    ensures
        is_prefix_of(a, a),
{
    assert(a =~= a.take(a.len() as int));
}

pub proof fn lemma_prefix_trans(a: Seq<bool>, b: Seq<bool>, c: Seq<bool>)
    requires
        is_prefix_of(a, b),
        is_prefix_of(b, c),
    ensures
        is_prefix_of(a, c),
{
    assert(a =~= c.take(a.len() as int)) by {
        assert(forall|i: int| 0 <= i < a.len() ==> a[i] == #[trigger] b[i]);
        assert(forall|i: int| 0 <= i < b.len() ==> b[i] == #[trigger] c[i]);
    }
}

/// A proper initial segment is strictly shorter.
pub proof fn lemma_proper_prefix_shorter(a: Seq<bool>, b: Seq<bool>)
    requires
        is_prefix_of(a, b),
        a != b,
    ensures
        is_strict_prefix_of(a, b),
{
    if a.len() == b.len() {
        assert(b.take(a.len() as int) =~= b);
    }
}

pub proof fn lemma_prefix_antisym(a: Seq<bool>, b: Seq<bool>)
    requires
        is_prefix_of(a, b),
        is_prefix_of(b, a),
    ensures
        a == b,
{
    assert(a =~= b);
}

/// The characteristic property of an initial segment, element by element.
pub proof fn lemma_prefix_index(a: Seq<bool>, b: Seq<bool>)
    requires
        is_prefix_of(a, b),
    ensures
        forall|i: int| 0 <= i < a.len() ==> a[i] == #[trigger] b[i],
{
}

/// Two bit strings of which one is an initial segment of the other, read at
/// any shared position, agree; conversely full agreement up to `a.len()`
/// makes `a` an initial segment.
pub proof fn lemma_prefix_from_index(a: Seq<bool>, b: Seq<bool>)
    requires
        a.len() <= b.len(),
        forall|i: int| 0 <= i < a.len() ==> a[i] == #[trigger] b[i],
    ensures
        is_prefix_of(a, b),
{
    assert(a =~= b.take(a.len() as int));
}

/// Containment is a tree order: two prefixes of one bit string are ordered.
pub proof fn lemma_prefix_linear(a: Seq<bool>, b: Seq<bool>, k: Seq<bool>)
    requires
        is_prefix_of(a, k),
        is_prefix_of(b, k),
        a.len() <= b.len(),
    ensures
        is_prefix_of(a, b),
{
    lemma_prefix_index(a, k);
    lemma_prefix_index(b, k);
    lemma_prefix_from_index(a, b);
}

/// A strict extension of `p` starts by extending `p` with one bit: its own
/// bit just below `p`.
pub proof fn lemma_extend_one(p: Seq<bool>, k: Seq<bool>)
    requires
        is_strict_prefix_of(p, k),
    ensures
        is_prefix_of(p.push(k[p.len() as int]), k),
        branch_right(p, k) == k[p.len() as int],
{
    lemma_prefix_index(p, k);
    lemma_prefix_from_index(p.push(k[p.len() as int]), k);
}

pub proof fn lemma_lex_irrefl(a: Seq<bool>)
    ensures
        !lex_lt(a, a),
    decreases a.len(),
{
    if a.len() > 0 {
        lemma_lex_irrefl(a.skip(1));
    }
}

pub proof fn lemma_lex_trans(a: Seq<bool>, b: Seq<bool>, c: Seq<bool>)
    requires
        lex_lt(a, b),
        lex_lt(b, c),
    ensures
        lex_lt(a, c),
    decreases a.len(),
{
    if a.len() > 0 && b.len() > 0 && c.len() > 0 {
        if a[0] == b[0] && b[0] == c[0] {
            lemma_lex_trans(a.skip(1), b.skip(1), c.skip(1));
        }
    }
}

/// A proper prefix comes first in lexicographic order.
pub proof fn lemma_strict_prefix_lex(a: Seq<bool>, b: Seq<bool>)
    requires
        is_strict_prefix_of(a, b),
    ensures
        lex_lt(a, b),
    decreases a.len(),
{
    if a.len() > 0 {
        lemma_prefix_index(a, b);
        assert(is_strict_prefix_of(a.skip(1), b.skip(1))) by {
            assert(forall|i: int| 0 <= i < a.len() - 1 ==> a.skip(1)[i] == #[trigger] b.skip(1)[i]);
            lemma_prefix_from_index(a.skip(1), b.skip(1));
        }
        lemma_strict_prefix_lex(a.skip(1), b.skip(1));
    }
}

/// Everything below the left branch of `p` is lexicographically smaller than
/// everything below the right branch of `p`.
pub proof fn lemma_branch_lex(p: Seq<bool>, a: Seq<bool>, b: Seq<bool>)
    requires
        is_strict_prefix_of(p, a),
        is_strict_prefix_of(p, b),
        !branch_right(p, a),
        branch_right(p, b),
    ensures
        lex_lt(a, b),
    decreases p.len(),
{
    lemma_prefix_index(p, a);
    lemma_prefix_index(p, b);
    if p.len() == 0 {
        assert(!a[0] && b[0]);
    } else {
        assert(a[0] == b[0]);
        assert(is_strict_prefix_of(p.skip(1), a.skip(1)) && branch_right(p.skip(1), a.skip(1))
            == branch_right(p, a)) by {
            assert(forall|i: int| 0 <= i < p.len() - 1 ==> p.skip(1)[i] == #[trigger] a.skip(1)[i]);
            lemma_prefix_from_index(p.skip(1), a.skip(1));
        }
        assert(is_strict_prefix_of(p.skip(1), b.skip(1)) && branch_right(p.skip(1), b.skip(1))
            == branch_right(p, b)) by {
            assert(forall|i: int| 0 <= i < p.len() - 1 ==> p.skip(1)[i] == #[trigger] b.skip(1)[i]);
            lemma_prefix_from_index(p.skip(1), b.skip(1));
        }
        lemma_branch_lex(p.skip(1), a.skip(1), b.skip(1));
    }
}

/// Distinct bit strings are comparable: the lexicographic order is total.
pub proof fn lemma_lex_total(a: Seq<bool>, b: Seq<bool>)
    requires
        a != b,
    ensures
        lex_lt(a, b) || lex_lt(b, a),
    decreases a.len(),
{
    if a.len() == 0 {
        if b.len() == 0 {
            assert(a =~= b);
        }
    } else if b.len() == 0 {
    } else if a[0] == b[0] {
        assert(a.skip(1) != b.skip(1)) by {
            if a.skip(1) == b.skip(1) {
                assert(a.skip(1).len() == a.len() - 1);
                assert(b.skip(1).len() == b.len() - 1);
                assert(a.len() == b.len());
                assert forall|i: int| 0 <= i < a.len() implies a[i] == b[i] by {
                    if i >= 1 {
                        assert(a.skip(1)[i - 1] == b.skip(1)[i - 1]);
                        assert(a.skip(1)[i - 1] == a[i]);
                        assert(b.skip(1)[i - 1] == b[i]);
                    }
                }
                assert(a =~= b);
            }
        }
        lemma_lex_total(a.skip(1), b.skip(1));
    }
}

/// The leading agreement of `a` and `b` stays within both and, where it stops
/// short of both, marks a genuine disagreement.
pub proof fn lemma_common_len(a: Seq<bool>, b: Seq<bool>)
    ensures
        common_len(a, b) <= a.len(),
        common_len(a, b) <= b.len(),
        forall|i: int| 0 <= i < common_len(a, b) ==> a[i] == #[trigger] b[i],
        common_len(a, b) < a.len() && common_len(a, b) < b.len() ==> a[common_len(a, b) as int]
            != b[common_len(a, b) as int],
    decreases a.len(),
{
    if a.len() == 0 || b.len() == 0 || a[0] != b[0] {
    } else {
        lemma_common_len(a.skip(1), b.skip(1));
        assert forall|i: int| 0 <= i < common_len(a, b) implies a[i] == #[trigger] b[i] by {
            if i >= 1 {
                assert(a.skip(1)[i - 1] == b.skip(1)[i - 1]);
            }
        }
    }
}

/// Agreement on the first `n` positions, broken at `n` (or exhausted), pins
/// `common_len` down to exactly `n`.
pub proof fn lemma_common_len_is(a: Seq<bool>, b: Seq<bool>, n: nat)
    requires
        n <= a.len(),
        n <= b.len(),
        forall|i: int| 0 <= i < n ==> a[i] == #[trigger] b[i],
        n < a.len() && n < b.len() ==> a[n as int] != b[n as int],
    ensures
        common_len(a, b) == n,
    decreases a.len(),
{
    if n == 0 {
        if a.len() > 0 && b.len() > 0 && a[0] == b[0] {
            assert(false);
        }
    } else {
        assert(a[0] == b[0]);
        assert(forall|i: int|
            0 <= i < n - 1 ==> a.skip(1)[i] == a[i + 1] && #[trigger] b.skip(1)[i] == b[i + 1]);
        lemma_common_len_is(a.skip(1), b.skip(1), (n - 1) as nat);
    }
}

/// The longest common prefix is a prefix of both arguments, and it is the
/// longest: every common initial segment is an initial segment of it.
pub proof fn lemma_common_prefix(a: Seq<bool>, b: Seq<bool>)
    ensures
        is_prefix_of(common_prefix(a, b), a),
        is_prefix_of(common_prefix(a, b), b),
        common_prefix(a, b).len() == common_len(a, b),
        forall|c: Seq<bool>|
            is_prefix_of(c, a) && is_prefix_of(c, b) ==> #[trigger] is_prefix_of(
                c,
                common_prefix(a, b),
            ),
{
    lemma_common_len(a, b);
    let cp = common_prefix(a, b);
    assert(cp =~= a.take(common_len(a, b) as int));
    lemma_prefix_from_index(cp, a);
    lemma_prefix_from_index(cp, b);
    assert forall|c: Seq<bool>| is_prefix_of(c, a) && is_prefix_of(c, b) implies #[trigger] is_prefix_of(
        c,
        cp,
    ) by {
        lemma_prefix_index(c, a);
        lemma_prefix_index(c, b);
        if c.len() > common_len(a, b) {
            let n = common_len(a, b) as int;
            if n < a.len() && n < b.len() {
                assert(a[n] == c[n] && b[n] == c[n]);
                assert(false);
            }
        }
        lemma_prefix_from_index(c, cp);
    }
}

/// When neither of `a` and `b` contains the other, their longest common
/// prefix is strictly shorter than both and they branch in opposite
/// directions below it.
pub proof fn lemma_common_prefix_branches(a: Seq<bool>, b: Seq<bool>)
    requires
        !is_prefix_of(a, b),
        !is_prefix_of(b, a),
    ensures
        is_strict_prefix_of(common_prefix(a, b), a),
        is_strict_prefix_of(common_prefix(a, b), b),
        branch_right(common_prefix(a, b), a) != branch_right(common_prefix(a, b), b),
{
    lemma_common_len(a, b);
    lemma_common_prefix(a, b);
    let n = common_len(a, b);
    if n == a.len() {
        lemma_prefix_from_index(a, b);
        assert(false);
    }
    if n == b.len() {
        lemma_prefix_from_index(b, a);
        assert(false);
    }
}

} // verus!
