//! The entry pattern: a handle to one slot of a [`PrefixMap`], either vacant
//! or occupied, resolved by a single traversal.  The handle itself holds no
//! borrow; each operation takes the map it was created from.

use vstd::prelude::*;
use crate::inner::{contents, key_of, reach};
use crate::map::{node_mut, opt_as_mut, slot_value_mut, PrefixMap};
use crate::prefix::Prefix;

verus! {

broadcast use crate::map::lemma_model_wf_auto, crate::map::lemma_model_map_auto;

/// A handle to a missing entry: the prefix to insert at.
pub struct VacantEntry<P, T> {
    prefix: P,
    _values: core::marker::PhantomData<T>,
}

/// A handle to an entry holding a value: the arena slot storing it.
pub struct OccupiedEntry<P, T> {
    idx: usize,
    _keys: core::marker::PhantomData<P>,
    _values: core::marker::PhantomData<T>,
}

/// A handle to one slot of a map, vacant or occupied.
pub enum Entry<P, T> {
    Vacant(VacantEntry<P, T>),
    Occupied(OccupiedEntry<P, T>),
}

impl<P: Prefix, T> VacantEntry<P, T> {
    /// The handle belongs to `m` and its prefix is absent there.
    pub closed spec fn valid(&self, m: PrefixMap<P, T>) -> bool {
        m.wf() && !m.as_map().contains_key(self.prefix.bits())
    }

    /// The prefix this handle stands for.
    pub closed spec fn key_bits(&self) -> Seq<bool> {
        self.prefix.bits()
    }

    /// Store a value at this vacant slot.
    pub fn insert(self, m: &mut PrefixMap<P, T>, value: T)
        requires
            self.valid(*old(m)),
        ensures
            final(m).wf(),
            final(m).as_map() == old(m).as_map().insert(self.key_bits(), value),
    {
        let _ = m.insert(self.prefix, value);
    }
}

impl<P: Prefix, T> OccupiedEntry<P, T> {
    /// The handle belongs to `m`: its slot is reachable and holds a value.
    pub closed spec fn valid(&self, m: PrefixMap<P, T>) -> bool {
        let t = m.table.view_nodes();
        &&& m.wf()
        &&& (self.idx as int) < t.len()
        &&& reach(t, self.idx as int)
        &&& t[self.idx as int].value is Some
    }

    /// The prefix this handle stands for.
    pub closed spec fn key_bits(&self, m: PrefixMap<P, T>) -> Seq<bool> {
        key_of(m.table.view_nodes(), self.idx as int)
    }

    /// Borrow the stored value mutably.  The final contents bind the entry's
    /// prefix to whatever the caller leaves in the reference.
    fn stored_value_mut<'a>(&self, m: &'a mut PrefixMap<P, T>) -> (r: &'a mut T)
        requires
            self.valid(*old(m)),
        ensures
            final(m).wf(),
            *r == old(m).as_map()[self.key_bits(*old(m))],
            old(m).as_map().contains_key(self.key_bits(*old(m))),
            final(m).as_map() == old(m).as_map().insert(self.key_bits(*old(m)), *final(r)),
    {
        proof {
            let t = m.table.view_nodes();
            assert(crate::inner::has_key(t, key_of(t, self.idx as int)));
            let iu = crate::inner::lemma_has_key_unique(t, key_of(t, self.idx as int));
            assert(iu == self.idx as int);
        }
        let ghost t1 = m.table.view_nodes();
        let node = node_mut(&mut m.table, self.idx);
        let slot = slot_value_mut(node);
        match opt_as_mut(slot) {
            Some(v) => {
                proof {
                    let t2 = t1.update(
                        self.idx as int,
                        crate::inner::Node {
                            prefix: t1[self.idx as int].prefix,
                            value: Some(*final(v)),
                            left: t1[self.idx as int].left,
                            right: t1[self.idx as int].right,
                        },
                    );
                    assert(crate::inner::same_shape(t1, t2)) by {
                        assert(forall|n: int|
                            0 <= n < t1.len() && n != self.idx as int ==> #[trigger] t2[n]
                                == t1[n]);
                    }
                    crate::inner::lemma_contents_value_update(t1, t2, self.idx as int);
                }
                v
            },
            None => vstd::pervasive::unreached(),
        }
    }
}

impl<P: Prefix, T> Entry<P, T> {
    /// The handle belongs to `m`.
    pub closed spec fn valid(&self, m: PrefixMap<P, T>) -> bool {
        match self {
            Entry::Vacant(e) => e.valid(m),
            Entry::Occupied(e) => e.valid(m),
        }
    }

    /// The prefix this handle stands for.
    pub closed spec fn key_bits(&self, m: PrefixMap<P, T>) -> Seq<bool> {
        match self {
            Entry::Vacant(e) => e.key_bits(),
            Entry::Occupied(e) => e.key_bits(m),
        }
    }

    /// Whether the handle is occupied: exactly when the map stores its
    /// prefix.
    pub closed spec fn is_occupied(&self) -> bool {
        self matches Entry::Occupied(_)
    }

    /// The value at this entry, if it is occupied.
    pub fn get<'a>(&self, m: &'a PrefixMap<P, T>) -> (r: Option<&'a T>)
        requires
            self.valid(*m),
        ensures
            self.is_occupied() == m.as_map().contains_key(self.key_bits(*m)),
            match r {
                Some(v) => m.as_map().contains_key(self.key_bits(*m)) && *v == m.as_map()[
                    self.key_bits(*m)],
                None => !m.as_map().contains_key(self.key_bits(*m)),
            },
    {
        proof {
            self.lemma_occupancy(*m);
        }
        match self {
            Entry::Vacant(_) => None,
            Entry::Occupied(e) => {
                let node = &m.table.nodes[e.idx];
                node.value.as_ref()
            },
        }
    }

    /// Occupancy agrees with the contents, and an occupied slot holds the
    /// mapped value.
    proof fn lemma_occupancy(&self, m: PrefixMap<P, T>)
        requires
            self.valid(m),
        ensures
            self.is_occupied() == m.as_map().contains_key(self.key_bits(m)),
            self.is_occupied() ==> m.as_map()[self.key_bits(m)] == m.table.view_nodes()[
                self->Occupied_0.idx as int].value->0,
    {
        let t = m.table.view_nodes();
        match self {
            Entry::Vacant(_) => {},
            Entry::Occupied(e) => {
                assert(crate::inner::has_key(t, key_of(t, e.idx as int)));
                let iu = crate::inner::lemma_has_key_unique(t, key_of(t, e.idx as int));
                assert(iu == e.idx as int);
            },
        }
    }

    /// The prefix of this entry.
    pub fn key<'a>(&'a self, m: &'a PrefixMap<P, T>) -> (r: &'a P)
        requires
            self.valid(*m),
        ensures
            r.bits() == self.key_bits(*m),
    {
        match self {
            Entry::Vacant(e) => &e.prefix,
            Entry::Occupied(e) => &m.table.nodes[e.idx].prefix,
        }
    }

    /// Store a value at this entry, returning the value it held before.
    pub fn insert(self, m: &mut PrefixMap<P, T>, value: T) -> (r: Option<T>)
        requires
            self.valid(*old(m)),
        ensures
            final(m).wf(),
            final(m).as_map() == old(m).as_map().insert(self.key_bits(*old(m)), value),
            match r {
                Some(v) => old(m).as_map().contains_key(self.key_bits(*old(m))) && v == old(
                    m,
                ).as_map()[self.key_bits(*old(m))],
                None => !old(m).as_map().contains_key(self.key_bits(*old(m))),
            },
    {
        proof {
            self.lemma_occupancy(*m);
        }
        match self {
            Entry::Vacant(e) => {
                e.insert(m, value);
                None
            },
            Entry::Occupied(e) => {
                let ghost t1 = m.table.view_nodes();
                let mut slot: Option<T> = Some(value);
                core::mem::swap(&mut m.table.nodes[e.idx].value, &mut slot);
                proof {
                    let t2 = m.table.view_nodes();
                    assert(crate::inner::same_shape(t1, t2)) by {
                        assert(forall|n: int|
                            0 <= n < t1.len() && n != e.idx as int ==> #[trigger] t2[n] == t1[n]);
                    }
                    crate::inner::lemma_contents_value_update(t1, t2, e.idx as int);
                    assert(m.as_map() =~= old(m).as_map().insert(
                        key_of(t1, e.idx as int),
                        value,
                    ));
                }
                slot
            },
        }
    }

    /// Get a mutable reference to the value at this entry, inserting
    /// `default` first when the entry is vacant.  The final contents bind the
    /// entry's prefix to whatever the caller leaves in the reference.
    pub fn or_insert<'a>(self, m: &'a mut PrefixMap<P, T>, default: T) -> (r: &'a mut T)
        requires
            self.valid(*old(m)),
        ensures
            final(m).wf(),
            *r == (if old(m).as_map().contains_key(self.key_bits(*old(m))) {
                old(m).as_map()[self.key_bits(*old(m))]
            } else {
                default
            }),
            final(m).as_map() == old(m).as_map().insert(self.key_bits(*old(m)), *final(r)),
    {
        proof {
            self.lemma_occupancy(*m);
        }
        match self {
            Entry::Vacant(e) => {
                let ghost kb = e.key_bits();
                let spare = e.prefix.dup();
                let _ = m.insert(e.prefix, default);
                match m.get_mut(&spare) {
                    Some(v) => v,
                    None => vstd::pervasive::unreached(),
                }
            },
            Entry::Occupied(e) => e.stored_value_mut(m),
        }
    }

    /// Get a mutable reference to the value at this entry, if it is
    /// occupied.  The final contents bind the entry's prefix to whatever the
    /// caller leaves in the reference.
    pub fn get_mut<'a>(&self, m: &'a mut PrefixMap<P, T>) -> (r: Option<&'a mut T>)
        requires
            self.valid(*old(m)),
        ensures
            final(m).wf(),
            match r {
                Some(v) => {
                    &&& old(m).as_map().contains_key(self.key_bits(*old(m)))
                    &&& *v == old(m).as_map()[self.key_bits(*old(m))]
                    &&& final(m).as_map() == old(m).as_map().insert(
                        self.key_bits(*old(m)),
                        *final(v),
                    )
                },
                None => {
                    &&& !old(m).as_map().contains_key(self.key_bits(*old(m)))
                    &&& final(m).as_map() == old(m).as_map()
                },
            },
    {
        proof {
            self.lemma_occupancy(*m);
        }
        match self {
            Entry::Vacant(_) => None,
            Entry::Occupied(e) => Some(e.stored_value_mut(m)),
        }
    }
}

impl<P: Prefix, T> Entry<P, T> {
    /// Get a mutable reference to the value at this entry, inserting the
    /// closure's result first when the entry is vacant.
    pub fn or_insert_with<'a, F: FnOnce() -> T>(
        self,
        m: &'a mut PrefixMap<P, T>,
        default: F,
    ) -> (r: &'a mut T)
        requires
            self.valid(*old(m)),
            call_requires(default, ()),
        ensures
            final(m).wf(),
            old(m).as_map().contains_key(self.key_bits(*old(m))) ==> *r == old(m).as_map()[
                self.key_bits(*old(m))],
            !old(m).as_map().contains_key(self.key_bits(*old(m))) ==> call_ensures(
                default,
                (),
                *r,
            ),
            final(m).as_map() == old(m).as_map().insert(self.key_bits(*old(m)), *final(r)),
    {
        proof {
            self.lemma_occupancy(*m);
        }
        match self {
            Entry::Vacant(e) => {
                let v0 = default();
                let spare = e.prefix.dup();
                let _ = m.insert(e.prefix, v0);
                match m.get_mut(&spare) {
                    Some(v) => v,
                    None => vstd::pervasive::unreached(),
                }
            },
            Entry::Occupied(e) => e.stored_value_mut(m),
        }
    }
}

impl<P: Prefix, T> Entry<P, T> {
    /// Apply a function to the stored value, when the entry is occupied,
    /// replacing it with the function's result; hand the entry back either
    /// way.  (The function consumes and returns the value: a verified
    /// counterpart of updating it in place.)
    pub fn and_modify<F: FnOnce(T) -> T>(self, m: &mut PrefixMap<P, T>, f: F) -> (r: Entry<P, T>)
        requires
            self.valid(*old(m)),
            old(m).as_map().contains_key(self.key_bits(*old(m))) ==> call_requires(
                f,
                (old(m).as_map()[self.key_bits(*old(m))],),
            ),
        ensures
            final(m).wf(),
            r.valid(*final(m)),
            r.key_bits(*final(m)) == self.key_bits(*old(m)),
            r.is_occupied() == self.is_occupied(),
            self.is_occupied() ==> {
                &&& old(m).as_map().contains_key(self.key_bits(*old(m)))
                &&& final(m).as_map().contains_key(self.key_bits(*old(m)))
                &&& call_ensures(
                    f,
                    (old(m).as_map()[self.key_bits(*old(m))],),
                    final(m).as_map()[self.key_bits(*old(m))],
                )
                &&& final(m).as_map() == old(m).as_map().insert(
                    self.key_bits(*old(m)),
                    final(m).as_map()[self.key_bits(*old(m))],
                )
            },
            !self.is_occupied() ==> final(m).as_map() == old(m).as_map(),
    {
        proof {
            self.lemma_occupancy(*m);
        }
        match self {
            Entry::Vacant(e) => Entry::Vacant(e),
            Entry::Occupied(e) => {
                let ghost kb = e.key_bits(*m);
                let ghost t1 = m.table.view_nodes();
                let mut slot: Option<T> = None;
                core::mem::swap(&mut m.table.nodes[e.idx].value, &mut slot);
                let ghost tmid = m.table.view_nodes();
                proof {
                    assert(crate::inner::same_shape(t1, tmid)) by {
                        assert(forall|n: int|
                            0 <= n < t1.len() && n != e.idx as int ==> #[trigger] tmid[n] == t1[
                                n]);
                    }
                    crate::inner::lemma_contents_value_update(t1, tmid, e.idx as int);
                    crate::inner::lemma_same_shape_reach(t1, tmid, e.idx as int);
                }
                let v0 = match slot {
                    Some(v0) => v0,
                    None => vstd::pervasive::unreached(),
                };
                let v1 = f(v0);
                let mut slot2: Option<T> = Some(v1);
                core::mem::swap(&mut m.table.nodes[e.idx].value, &mut slot2);
                proof {
                    let t2 = m.table.view_nodes();
                    assert(crate::inner::same_shape(tmid, t2)) by {
                        assert(forall|n: int|
                            0 <= n < tmid.len() && n != e.idx as int ==> #[trigger] t2[n] == tmid[
                                n]);
                    }
                    crate::inner::lemma_contents_value_update(tmid, t2, e.idx as int);
                    assert(m.as_map() =~= old(m).as_map().insert(kb, m.as_map()[kb])) by {
                        assert(contents(t2) =~= contents(tmid).insert(kb, t2[
                            e.idx as int].value->0));
                    }
                }
                Entry::Occupied(e)
            },
        }
    }
}

impl<P: Prefix, T: core::default::Default> Entry<P, T> {
    /// Get a mutable reference to the value at this entry, inserting the
    /// value type's default first when the entry is vacant.
    pub fn or_default<'a>(self, m: &'a mut PrefixMap<P, T>) -> (r: &'a mut T)
        requires
            self.valid(*old(m)),
        ensures
            final(m).wf(),
            old(m).as_map().contains_key(self.key_bits(*old(m))) ==> *r == old(m).as_map()[
                self.key_bits(*old(m))],
            final(m).as_map() == old(m).as_map().insert(self.key_bits(*old(m)), *final(r)),
    {
        proof {
            self.lemma_occupancy(*m);
        }
        match self {
            Entry::Vacant(e) => {
                let spare = e.prefix.dup();
                let _ = m.insert(e.prefix, T::default());
                match m.get_mut(&spare) {
                    Some(v) => v,
                    None => vstd::pervasive::unreached(),
                }
            },
            Entry::Occupied(e) => e.stored_value_mut(m),
        }
    }
}

impl<P: Prefix, T> PrefixMap<P, T> {
    /// The entry handle for `prefix`: occupied exactly when a value is
    /// stored there, resolved by one traversal.
    pub fn entry(&self, prefix: P) -> (r: Entry<P, T>)
        requires
            self.wf(),
        ensures
            r.valid(*self),
            r.key_bits(*self) == prefix.bits(),
            r.is_occupied() == self.as_map().contains_key(prefix.bits()),
    {
        let ghost t = self.table.view_nodes();
        let ghost pk = prefix.bits();
        match self.find_node(&prefix) {
            Some(i) => {
                proof {
                    crate::inner::lemma_search_reached(t, pk, i as int);
                }
                if self.table.nodes[i].value.is_some() {
                    Entry::Occupied(
                        OccupiedEntry {
                            idx: i,
                            _keys: core::marker::PhantomData,
                            _values: core::marker::PhantomData,
                        },
                    )
                } else {
                    Entry::Vacant(VacantEntry { prefix, _values: core::marker::PhantomData })
                }
            },
            None => Entry::Vacant(VacantEntry { prefix, _values: core::marker::PhantomData }),
        }
    }
}

} // verus!
