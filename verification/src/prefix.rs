//! The key capability: a trait for hierarchical bit-string prefixes, a free
//! branch-direction predicate, and one concrete implementer backed by a
//! vector of bits.

use vstd::prelude::*;
use crate::bits::{branch_right, common_prefix, is_prefix_of};

verus! {

/// A bit-string prefix.  Every value denotes a finite bit string, given by
/// the `bits` specification; one prefix contains another when its bit string
/// is an initial segment of the other's.  The trie engine never inspects a
/// key beyond the operations listed here.
pub trait Prefix: Sized {
    /// The bit string this value denotes.
    spec fn bits(&self) -> Seq<bool>;

    /// The identity prefix: the empty bit string, which contains every
    /// prefix.  It sits at the root of every trie.
    fn zero() -> (r: Self)
        ensures
            r.bits().len() == 0,
    ;

    /// The number of bits.
    fn prefix_len(&self) -> (r: usize)
        ensures
            r == self.bits().len(),
    ;

    /// The bit at position `i`.
    fn bit_at(&self, i: usize) -> (r: bool)
        requires
            i < self.bits().len(),
        ensures
            r == self.bits()[i as int],
    ;

    /// Whether the two prefixes denote the same bit string.
    fn eq(&self, other: &Self) -> (r: bool)
        ensures
            r == (self.bits() == other.bits()),
    ;

    /// Whether `self` contains `other`.  Reflexive.
    fn contains(&self, other: &Self) -> (r: bool)
        ensures
            r == is_prefix_of(self.bits(), other.bits()),
    ;

    /// The most specific prefix containing both `self` and `other`.
    fn longest_common_prefix(&self, other: &Self) -> (r: Self)
        ensures
            r.bits() == common_prefix(self.bits(), other.bits()),
    ;

    /// An independent copy denoting the same bit string.
    fn dup(&self) -> (r: Self)
        ensures
            r.bits() == self.bits(),
    ;
}

/// At the branching point `left`, decide whether `right` falls on the
/// bit-value-1 ("right") side: the bit of `right` just below `left`.
pub fn to_right<P: Prefix>(left: &P, right: &P) -> (r: bool)
    requires
        left.bits().len() < right.bits().len(),
    ensures
        r == branch_right(left.bits(), right.bits()),
{
    right.bit_at(left.prefix_len())
}

/// A prefix stored directly as its vector of bits: the simplest implementer
/// of the [`Prefix`] capability, suitable for any address family once the
/// caller has spelt its keys out bit by bit.
pub struct BitPrefix {
    bv: Vec<bool>,
}

impl BitPrefix {
    /// Wrap an explicit vector of bits.
    pub fn new(bv: Vec<bool>) -> (r: Self)
        ensures
            r.bits() == bv@,
    {
        BitPrefix { bv }
    }

    /// The bits, as a vector.
    pub fn to_vec(&self) -> (r: Vec<bool>)
        ensures
            r@ == self.bits(),
    {
        let mut out: Vec<bool> = Vec::new();
        let mut i: usize = 0;
        while i < self.bv.len()
            invariant
                i <= self.bv@.len(),
                out@ == self.bv@.take(i as int),
            decreases self.bv@.len() - i,
        {
            out.push(self.bv[i]);
            proof {
                assert(out@ =~= self.bv@.take(i + 1));
            }
            i = i + 1;
        }
        proof {
            assert(out@ =~= self.bv@);
        }
        out
    }
}

impl Prefix for BitPrefix {
    closed spec fn bits(&self) -> Seq<bool> {
        self.bv@
    }

    fn zero() -> (r: Self) {
        BitPrefix { bv: Vec::new() }
    }

    fn prefix_len(&self) -> (r: usize) {
        self.bv.len()
    }

    fn bit_at(&self, i: usize) -> (r: bool) {
        self.bv[i]
    }

    fn eq(&self, other: &Self) -> (r: bool) {
        if self.bv.len() != other.bv.len() {
            proof {
                assert(self.bits() != other.bits());
            }
            return false;
        }
        let mut i: usize = 0;
        while i < self.bv.len()
            invariant
                self.bv@.len() == other.bv@.len(),
                i <= self.bv@.len(),
                forall|j: int| 0 <= j < i ==> self.bv@[j] == #[trigger] other.bv@[j],
            decreases self.bv@.len() - i,
        {
            if self.bv[i] != other.bv[i] {
                proof {
                    assert(self.bits() != other.bits());
                }
                return false;
            }
            i = i + 1;
        }
        proof {
            assert(self.bits() =~= other.bits());
        }
        true
    }

    fn contains(&self, other: &Self) -> (r: bool) {
        if self.bv.len() > other.bv.len() {
            return false;
        }
        let mut i: usize = 0;
        while i < self.bv.len()
            invariant
                self.bv@.len() <= other.bv@.len(),
                i <= self.bv@.len(),
                forall|j: int| 0 <= j < i ==> self.bv@[j] == #[trigger] other.bv@[j],
            decreases self.bv@.len() - i,
        {
            if self.bv[i] != other.bv[i] {
                proof {
                    if is_prefix_of(self.bits(), other.bits()) {
                        crate::bits::lemma_prefix_index(self.bits(), other.bits());
                    }
                }
                return false;
            }
            i = i + 1;
        }
        proof {
            crate::bits::lemma_prefix_from_index(self.bits(), other.bits());
        }
        true
    }

    fn longest_common_prefix(&self, other: &Self) -> (r: Self) {
        let mut i: usize = 0;
        let a = &self.bv;
        let b = &other.bv;
        while i < a.len() && i < b.len() && a[i] == b[i]
            invariant
                i <= a@.len(),
                i <= b@.len(),
                forall|j: int| 0 <= j < i ==> a@[j] == #[trigger] b@[j],
            decreases a@.len() - i,
        {
            i = i + 1;
        }
        proof {
            crate::bits::lemma_common_len_is(a@, b@, i as nat);
        }
        let mut out: Vec<bool> = Vec::new();
        let mut j: usize = 0;
        while j < i
            invariant
                i <= a@.len(),
                j <= i,
                out@ == a@.take(j as int),
            decreases i - j,
        {
            out.push(a[j]);
            proof {
                assert(out@ =~= a@.take(j + 1));
            }
            j = j + 1;
        }
        BitPrefix { bv: out }
    }

    fn dup(&self) -> (r: Self) {
        BitPrefix { bv: self.to_vec() }
    }
}

} // verus!
