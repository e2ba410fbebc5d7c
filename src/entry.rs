//! The entry API: one lookup yields a view of the place where a key is or
//! belongs, on which a single terminal operation then inserts, updates or
//! removes without searching again.
use vstd::prelude::*;

use crate::allocator::{AllocError, Allocator, Global};
use crate::map::{lemma_map_of_index, lemma_map_of_insert, lemma_map_of_remove, lemma_map_of_update, BTreeMap};
use crate::node::{node_layout_spec, Handle};
use crate::order::total_order;

verus! {

/// A view into a single entry in a map, which may either be vacant or
/// occupied.
#[derive(Debug)]
pub enum Entry<'a, K, V, A: Allocator = Global> {
    /// A vacant entry.
    Vacant(VacantEntry<'a, K, V, A>),
    /// An occupied entry.
    Occupied(OccupiedEntry<'a, K, V, A>),
}

/// A view into a vacant entry: the key, and the gap where it belongs
/// (none while the map has no root).
#[derive(Debug)]
pub struct VacantEntry<'a, K, V, A: Allocator = Global> {
    /// The key to insert.
    pub key: K,
    /// The gap where the key belongs; none while the map has no root.
    pub handle: Option<Handle>,
    /// The map, borrowed for the entry's lifetime.
    pub map: &'a mut BTreeMap<K, V, A>,
}

/// A view into an occupied entry: a handle to the pair.
#[derive(Debug)]
pub struct OccupiedEntry<'a, K, V, A: Allocator = Global> {
    /// The pair's position in the tree.
    pub handle: Handle,
    /// The map, borrowed for the entry's lifetime.
    pub map: &'a mut BTreeMap<K, V, A>,
}

/// Returned when inserting a key that is already present: the entry of
/// the pair in the map, and the value that was not inserted.
#[derive(Debug)]
pub struct OccupiedError<'a, K, V, A: Allocator = Global> {
    /// The entry in the map that was already occupied.
    pub entry: OccupiedEntry<'a, K, V, A>,
    /// The value which was not inserted, because the entry was already
    /// occupied.
    pub value: V,
}

impl<'a, K: Ord, V, A: Allocator> VacantEntry<'a, K, V, A> {
    /// The entry points into its map at the gap where its key belongs.
    pub closed spec fn wf(self) -> bool {
        &&& self.map.wf()
        &&& self.map.valid_gap_handle(self.key, self.handle)
    }

    /// The key the entry was made for.
    pub open spec fn spec_key(self) -> K {
        self.key
    }

    /// The map the entry borrows.
    pub open spec fn map_ref(self) -> &'a mut BTreeMap<K, V, A> {
        self.map
    }

    /// How many new nodes inserting through this entry asks the allocator
    /// for; none when the leaf has room.
    pub closed spec fn nodes_needed(self) -> nat {
        self.map.nodes_needed_at(self.handle)
    }

    /// Gets a reference to the key that would be used when inserting a
    /// value through the `VacantEntry`.
    pub fn key(&self) -> (r: &K)
        ensures
            *r == self.spec_key(),
    {
        &self.key
    }

    /// Takes ownership of the key; the map is left as it was.
    pub fn into_key(self) -> (r: K)
        ensures
            r == self.spec_key(),
            *final(self.map_ref()) == *self.map_ref(),
    {
        self.key
    }

    /// Sets the value of the entry with the `VacantEntry`'s key, and
    /// returns a mutable reference to it. An insertion that needs no new
    /// node, or whose allocator grants every request, succeeds; otherwise it
    /// fails, leaving the map as it was, only when the allocator refuses a
    /// node. The tree grows by at most one level.
    pub fn try_insert(self, value: V) -> (r: Result<&'a mut V, AllocError>)
        requires
            self.wf(),
            self.map_ref().spec_len() < usize::MAX,
        ensures
            match r {
                Ok(v) => {
                    &&& *v == value
                    &&& final(self.map_ref()).wf()
                    &&& final(self.map_ref())@ == self.map_ref()@.insert(self.spec_key(), *final(v))
                    &&& final(self.map_ref()).spec_len() == self.map_ref().spec_len() + 1
                    &&& final(self.map_ref()).spec_allocator() == self.map_ref().spec_allocator()
                    &&& final(self.map_ref()).spec_height() == self.map_ref().spec_height()
                        || final(self.map_ref()).spec_height() == self.map_ref().spec_height() + 1
                },
                Err(e) => {
                    &&& *final(self.map_ref()) == *self.map_ref()
                    &&& e.layout == node_layout_spec::<K, V>()
                    &&& self.nodes_needed() > 0
                },
            },
            self.map_ref().spec_allocator().grants_every_request() ==> r is Ok,
    {
        let ghost old_map = *self.map;
        let ghost p = old_map.gap_index(self.handle);
        proof {
            old_map.lemma_wf();
            old_map.lemma_gap_handle(self.key, self.handle);
            assert forall|v: V| #[trigger] crate::map::map_of(old_map.entries().insert(p, (self.key, v)))
                == old_map@.insert(self.key, v) by {
                lemma_map_of_insert(old_map.entries(), p, self.key, v);
            }
        }
        self.map.insert_at_gap(self.handle, self.key, value)
    }
}

impl<'a, K: Ord, V, A: Allocator> OccupiedEntry<'a, K, V, A> {
    /// The entry points into its map at a pair.
    pub closed spec fn wf(self) -> bool {
        &&& self.map.wf()
        &&& self.map.valid_kv_handle(self.handle)
    }

    /// The key of the pair.
    pub closed spec fn spec_key(self) -> K {
        self.map.entries()[self.map.kv_index(self.handle)].0
    }

    /// The map the entry borrows.
    pub open spec fn map_ref(self) -> &'a mut BTreeMap<K, V, A> {
        self.map
    }

    /// The entry's key is in the map.
    pub proof fn lemma_present(self)
        requires
            self.wf(),
        ensures
            self.map_ref()@.contains_key(self.spec_key()),
            self.map_ref().spec_len() >= 1,
    {
        self.map.lemma_wf();
        self.map.lemma_kv_handle(self.handle);
        lemma_map_of_index(self.map.entries(), self.map.kv_index(self.handle));
    }

    /// Gets a reference to the key in the entry.
    pub fn key(&self) -> (r: &K)
        requires
            self.wf(),
        ensures
            *r == self.spec_key(),
    {
        &self.map.kv_at_handle(&self.handle).0
    }

    /// Gets a reference to the value in the entry.
    pub fn get(&self) -> (r: &V)
        requires
            self.wf(),
        ensures
            *r == self.map_ref()@[self.spec_key()],
    {
        proof {
            self.map.lemma_wf();
            self.map.lemma_kv_handle(self.handle);
            lemma_map_of_index(self.map.entries(), self.map.kv_index(self.handle));
        }
        &self.map.kv_at_handle(&self.handle).1
    }

    /// Gets a mutable reference to the value in the entry; the entry stays
    /// usable afterwards.
    pub fn get_mut(&mut self) -> (r: &mut V)
        requires
            old(self).wf(),
        ensures
            final(self).wf(),
            final(self).spec_key() == old(self).spec_key(),
            *r == old(self).map_ref()@[old(self).spec_key()],
            final(self).map_ref()@ == old(self).map_ref()@.insert(old(self).spec_key(), *final(r)),
            final(self).map_ref().spec_len() == old(self).map_ref().spec_len(),
            final(self).map_ref().wf(),
            *final(final(self).map_ref()) == *final(old(self).map_ref()),
    {
        let ghost m0 = *self.map;
        let ghost i = m0.kv_index(self.handle);
        proof {
            m0.lemma_wf();
            m0.lemma_kv_handle(self.handle);
            lemma_map_of_index(m0.entries(), i);
            assert forall|v: V| #[trigger] crate::map::map_of(m0.entries().update(i, (m0.entries()[i].0, v)))
                == m0@.insert(m0.entries()[i].0, v) by {
                lemma_map_of_update(m0.entries(), i, v);
            }
        }
        self.map.val_mut_at_handle(&self.handle)
    }

    /// Converts the entry into a mutable reference to its value, which
    /// lives as long as the map's borrow.
    pub fn into_mut(self) -> (r: &'a mut V)
        requires
            self.wf(),
        ensures
            *r == self.map_ref()@[self.spec_key()],
            final(self.map_ref()).wf(),
            final(self.map_ref())@ == self.map_ref()@.insert(self.spec_key(), *final(r)),
            final(self.map_ref()).spec_len() == self.map_ref().spec_len(),
            final(self.map_ref()).spec_allocator() == self.map_ref().spec_allocator(),
    {
        let ghost m0 = *self.map;
        let ghost i = m0.kv_index(self.handle);
        proof {
            m0.lemma_wf();
            m0.lemma_kv_handle(self.handle);
            lemma_map_of_index(m0.entries(), i);
            assert forall|v: V| #[trigger] crate::map::map_of(m0.entries().update(i, (m0.entries()[i].0, v)))
                == m0@.insert(m0.entries()[i].0, v) by {
                lemma_map_of_update(m0.entries(), i, v);
            }
        }
        self.map.val_mut_at_handle(&self.handle)
    }

    /// Sets the value of the entry, and returns the entry's old value.
    pub fn insert(&mut self, value: V) -> (r: V)
        requires
            old(self).wf(),
        ensures
            final(self).wf(),
            final(self).spec_key() == old(self).spec_key(),
            r == old(self).map_ref()@[old(self).spec_key()],
            final(self).map_ref()@ == old(self).map_ref()@.insert(old(self).spec_key(), value),
            final(self).map_ref().spec_len() == old(self).map_ref().spec_len(),
            final(self).map_ref().wf(),
            *final(final(self).map_ref()) == *final(old(self).map_ref()),
    {
        let slot = self.get_mut();
        let mut value = value;
        core::mem::swap(slot, &mut value);
        value
    }

    /// Takes the key and value out of the map.
    pub fn remove_entry(self) -> (r: (K, V))
        requires
            self.wf(),
        ensures
            r.0 == self.spec_key(),
            r.1 == self.map_ref()@[self.spec_key()],
            final(self.map_ref()).wf(),
            final(self.map_ref())@ == self.map_ref()@.remove(self.spec_key()),
            final(self.map_ref()).spec_len() + 1 == self.map_ref().spec_len(),
            final(self.map_ref()).spec_allocator() == self.map_ref().spec_allocator(),
    {
        self.remove_kv()
    }

    /// Takes the value of the entry out of the map, and returns it.
    pub fn remove(self) -> (r: V)
        requires
            self.wf(),
        ensures
            r == self.map_ref()@[self.spec_key()],
            final(self.map_ref()).wf(),
            final(self.map_ref())@ == self.map_ref()@.remove(self.spec_key()),
            final(self.map_ref()).spec_len() + 1 == self.map_ref().spec_len(),
            final(self.map_ref()).spec_allocator() == self.map_ref().spec_allocator(),
    {
        self.remove_kv().1
    }

    fn remove_kv(self) -> (r: (K, V))
        requires
            self.wf(),
        ensures
            r.0 == self.spec_key(),
            r.1 == self.map_ref()@[self.spec_key()],
            final(self.map_ref()).wf(),
            final(self.map_ref())@ == self.map_ref()@.remove(self.spec_key()),
            final(self.map_ref()).spec_len() + 1 == self.map_ref().spec_len(),
            final(self.map_ref()).spec_allocator() == self.map_ref().spec_allocator(),
    {
        let ghost m0 = *self.map;
        let ghost i = m0.kv_index(self.handle);
        proof {
            m0.lemma_wf();
            m0.lemma_kv_handle(self.handle);
            lemma_map_of_index(m0.entries(), i);
            lemma_map_of_remove(m0.entries(), i);
        }
        self.map.remove_at_handle(self.handle)
    }
}

impl<'a, K: Ord, V, A: Allocator> Entry<'a, K, V, A> {
    /// The entry points into its map where its key is or belongs.
    pub open spec fn wf(self) -> bool {
        match self {
            Entry::Vacant(v) => v.wf(),
            Entry::Occupied(o) => o.wf(),
        }
    }

    /// The entry's key.
    pub open spec fn spec_key(self) -> K {
        match self {
            Entry::Vacant(v) => v.spec_key(),
            Entry::Occupied(o) => o.spec_key(),
        }
    }

    /// The map the entry borrows.
    pub open spec fn map_ref(self) -> &'a mut BTreeMap<K, V, A> {
        match self {
            Entry::Vacant(v) => v.map_ref(),
            Entry::Occupied(o) => o.map_ref(),
        }
    }

    /// How many new nodes committing this entry asks the allocator for.
    pub open spec fn nodes_needed(self) -> nat {
        match self {
            Entry::Vacant(v) => v.nodes_needed(),
            Entry::Occupied(_) => 0,
        }
    }

    /// Ensures a value is in the entry by inserting `default` if empty, and
    /// returns a mutable reference to the value in the entry. An occupied
    /// entry's value is never overwritten. Fails, leaving the map as it
    /// was, only when a vacant entry's insertion is refused a node.
    pub fn or_try_insert(self, default: V) -> (r: Result<&'a mut V, AllocError>)
        requires
            self.wf(),
            self is Vacant ==> self.map_ref().spec_len() < usize::MAX,
        ensures
            self is Occupied ==> r is Ok,
            r matches Ok(v) ==> {
                &&& final(self.map_ref()).wf()
                &&& final(self.map_ref())@ == self.map_ref()@.insert(self.spec_key(), *final(v))
                &&& self is Occupied ==> *v == self.map_ref()@[self.spec_key()]
                    && final(self.map_ref()).spec_len() == self.map_ref().spec_len()
                &&& self is Vacant ==> *v == default && final(self.map_ref()).spec_len()
                    == self.map_ref().spec_len() + 1
            },
            r matches Err(e) ==> self is Vacant && *final(self.map_ref()) == *self.map_ref()
                && e.layout == node_layout_spec::<K, V>() && self.nodes_needed() > 0,
            self.map_ref().spec_allocator().grants_every_request() ==> r is Ok,
    {
        match self {
            Entry::Occupied(entry) => Ok(entry.into_mut()),
            Entry::Vacant(entry) => entry.try_insert(default),
        }
    }

    /// As `or_try_insert`, with the value made by `default` only when the
    /// entry is vacant.
    pub fn or_try_insert_with<F: FnOnce() -> V>(self, default: F) -> (r: Result<&'a mut V, AllocError>)
        requires
            self.wf(),
            self is Vacant ==> self.map_ref().spec_len() < usize::MAX,
            self is Vacant ==> default.requires(()),
        ensures
            self is Occupied ==> r is Ok,
            r matches Ok(v) ==> {
                &&& final(self.map_ref()).wf()
                &&& final(self.map_ref())@ == self.map_ref()@.insert(self.spec_key(), *final(v))
                &&& self is Occupied ==> *v == self.map_ref()@[self.spec_key()]
                    && final(self.map_ref()).spec_len() == self.map_ref().spec_len()
                &&& self is Vacant ==> default.ensures((), *v) && final(self.map_ref()).spec_len()
                    == self.map_ref().spec_len() + 1
            },
            r matches Err(e) ==> self is Vacant && *final(self.map_ref()) == *self.map_ref()
                && e.layout == node_layout_spec::<K, V>() && self.nodes_needed() > 0,
            self.map_ref().spec_allocator().grants_every_request() ==> r is Ok,
    {
        match self {
            Entry::Occupied(entry) => Ok(entry.into_mut()),
            Entry::Vacant(entry) => entry.try_insert(default()),
        }
    }

    /// As `or_try_insert`, with the value made by `default` from the
    /// entry's key only when the entry is vacant.
    pub fn or_try_insert_with_key<F: FnOnce(&K) -> V>(self, default: F) -> (r: Result<
        &'a mut V,
        AllocError,
    >)
        requires
            self.wf(),
            self is Vacant ==> self.map_ref().spec_len() < usize::MAX,
            self is Vacant ==> default.requires((&(self.spec_key()),)),
        ensures
            self is Occupied ==> r is Ok,
            r matches Ok(v) ==> {
                &&& final(self.map_ref()).wf()
                &&& final(self.map_ref())@ == self.map_ref()@.insert(self.spec_key(), *final(v))
                &&& self is Occupied ==> *v == self.map_ref()@[self.spec_key()]
                    && final(self.map_ref()).spec_len() == self.map_ref().spec_len()
                &&& self is Vacant ==> default.ensures((&(self.spec_key()),), *v)
                    && final(self.map_ref()).spec_len() == self.map_ref().spec_len() + 1
            },
            r matches Err(e) ==> self is Vacant && *final(self.map_ref()) == *self.map_ref()
                && e.layout == node_layout_spec::<K, V>() && self.nodes_needed() > 0,
            self.map_ref().spec_allocator().grants_every_request() ==> r is Ok,
    {
        match self {
            Entry::Occupied(entry) => Ok(entry.into_mut()),
            Entry::Vacant(entry) => {
                let value = default(entry.key());
                entry.try_insert(value)
            },
        }
    }

    /// Returns a reference to this entry's key.
    pub fn key(&self) -> (r: &K)
        requires
            self.wf(),
        ensures
            *r == self.spec_key(),
    {
        match self {
            Entry::Occupied(entry) => entry.key(),
            Entry::Vacant(entry) => entry.key(),
        }
    }

    /// Applies `f` to the value of an occupied entry, in place; a vacant
    /// entry is handed back untouched. Either way the entry is returned for
    /// further use.
    pub fn and_modify<F: FnOnce(&mut V)>(self, f: F) -> (r: Self)
        requires
            self.wf(),
            self is Occupied ==> forall|x: &mut V| *x == self.map_ref()@[self.spec_key()] ==> f.requires((x,)),
        ensures
            r.wf(),
            r.map_ref().wf(),
            r is Occupied <==> self is Occupied,
            r.spec_key() == self.spec_key(),
            *final(r.map_ref()) == *final(self.map_ref()),
            self is Vacant ==> r == self,
            self is Occupied ==> exists|x: &mut V|
                {
                    &&& *x == self.map_ref()@[self.spec_key()]
                    &&& f.ensures((x,), ())
                    &&& r.map_ref()@ == self.map_ref()@.insert(self.spec_key(), *final(x))
                    &&& r.map_ref().spec_len() == self.map_ref().spec_len()
                },
    {
        match self {
            Entry::Occupied(mut entry) => {
                let x = entry.get_mut();
                f(x);
                Entry::Occupied(entry)
            },
            Entry::Vacant(entry) => Entry::Vacant(entry),
        }
    }
}

impl<'a, K: Ord, V: Default, A: Allocator> Entry<'a, K, V, A> {
    /// As `or_try_insert`, with `V`'s default value.
    pub fn or_try_default(self) -> (r: Result<&'a mut V, AllocError>)
        requires
            self.wf(),
            self is Vacant ==> self.map_ref().spec_len() < usize::MAX,
        ensures
            self is Occupied ==> r is Ok,
            r matches Ok(v) ==> {
                &&& final(self.map_ref()).wf()
                &&& final(self.map_ref())@ == self.map_ref()@.insert(self.spec_key(), *final(v))
                &&& self is Occupied ==> *v == self.map_ref()@[self.spec_key()]
                    && final(self.map_ref()).spec_len() == self.map_ref().spec_len()
                &&& self is Vacant ==> call_ensures(V::default, (), *v)
                    && final(self.map_ref()).spec_len() == self.map_ref().spec_len() + 1
            },
            r matches Err(e) ==> self is Vacant && *final(self.map_ref()) == *self.map_ref()
                && e.layout == node_layout_spec::<K, V>() && self.nodes_needed() > 0,
            self.map_ref().spec_allocator().grants_every_request() ==> r is Ok,
    {
        match self {
            Entry::Occupied(entry) => Ok(entry.into_mut()),
            Entry::Vacant(entry) => entry.try_insert(V::default()),
        }
    }
}

impl<K: Ord, V, A: Allocator> BTreeMap<K, V, A> {
    /// Gets the entry for `key`, for in-place manipulation: occupied when
    /// the map holds the key, vacant otherwise.
    pub fn entry(&mut self, key: K) -> (r: Entry<'_, K, V, A>)
        requires
            old(self).wf(),
        ensures
            r.wf(),
            r.spec_key() == key,
            *r.map_ref() == *old(self),
            *final(r.map_ref()) == *final(self),
            r is Occupied <==> old(self)@.contains_key(key),
    {
        if self.len() == 0 {
            proof {
                self.lemma_wf();
                self.lemma_empty_gap(key);
                self.lemma_gap_handle(key, None);
            }
            return Entry::Vacant(VacantEntry { key, handle: None, map: self });
        }
        let (found, handle) = self.search_tree(&key);
        if found {
            proof {
                self.lemma_wf();
                lemma_map_of_index(self.entries(), self.kv_index(handle));
            }
            Entry::Occupied(OccupiedEntry { handle, map: self })
        } else {
            proof {
                self.lemma_gap_handle(key, Some(handle));
            }
            Entry::Vacant(VacantEntry { key, handle: Some(handle), map: self })
        }
    }
}

impl<K: Ord, V, A: Allocator> BTreeMap<K, V, A> {
    /// Inserts `value` for `key`, returning the value it replaces, if any.
    /// Replacing, inserting where no new node is needed, and inserting with
    /// an allocator that grants every request all succeed; otherwise a new
    /// key's insertion fails, leaving the map as it was, only when the
    /// allocator refuses a node.
    pub fn try_insert(&mut self, key: K, value: V) -> (r: Result<Option<V>, AllocError>)
        requires
            old(self).wf(),
            old(self).spec_len() < usize::MAX,
        ensures
            final(self).wf(),
            old(self)@.contains_key(key) ==> r is Ok,
            r matches Ok(prev) ==> {
                &&& final(self)@ == old(self)@.insert(key, value)
                &&& prev is Some <==> old(self)@.contains_key(key)
                &&& prev matches Some(p) ==> p == old(self)@[key]
                &&& final(self).spec_len() == old(self).spec_len() + (if prev is Some {
                    0int
                } else {
                    1int
                })
            },
            r matches Err(e) ==> *final(self) == *old(self) && e.layout == node_layout_spec::<K, V>()
                && exists|h: Option<Handle>|
                old(self).valid_gap_handle(key, h) && #[trigger] old(self).nodes_needed_at(h) > 0,
            old(self).spec_allocator().grants_every_request() ==> r is Ok,
    {
        match self.entry(key) {
            Entry::Occupied(mut entry) => {
                let prev = entry.insert(value);
                Ok(Some(prev))
            },
            Entry::Vacant(entry) => {
                match entry.try_insert(value) {
                    Ok(_) => Ok(None),
                    Err(e) => Err(e),
                }
            },
        }
    }

    /// Inserts `value` for `key` only when the key is absent. When it is
    /// present, nothing is overwritten: the error carries the occupied
    /// entry and the value that was not inserted.
    pub fn try_insert_if_vacant(&mut self, key: K, value: V) -> (r: Result<
        Result<&mut V, OccupiedError<'_, K, V, A>>,
        AllocError,
    >)
        requires
            old(self).wf(),
            old(self).spec_len() < usize::MAX,
        ensures
            old(self)@.contains_key(key) ==> (r matches Ok(Err(oe)) && oe.value == value
                && oe.entry.wf() && oe.entry.spec_key() == key && *oe.entry.map_ref() == *old(self)
                && *final(oe.entry.map_ref()) == *final(self)),
            r matches Ok(Ok(v)) ==> {
                &&& !old(self)@.contains_key(key)
                &&& *v == value
                &&& final(self).wf()
                &&& final(self)@ == old(self)@.insert(key, *final(v))
                &&& final(self).spec_len() == old(self).spec_len() + 1
            },
            r matches Err(e) ==> !old(self)@.contains_key(key) && *final(self) == *old(self)
                && e.layout == node_layout_spec::<K, V>()
                && exists|h: Option<Handle>|
                old(self).valid_gap_handle(key, h) && #[trigger] old(self).nodes_needed_at(h) > 0,
            old(self).spec_allocator().grants_every_request() ==> r is Ok,
    {
        match self.entry(key) {
            Entry::Occupied(entry) => Ok(Err(OccupiedError { entry, value })),
            Entry::Vacant(entry) => {
                match entry.try_insert(value) {
                    Ok(v) => Ok(Ok(v)),
                    Err(e) => Err(e),
                }
            },
        }
    }

    /// Removes `key`, returning the stored key and value; a map without
    /// the key is left as it was.
    pub fn remove_entry(&mut self, key: &K) -> (r: Option<(K, V)>)
        requires
            old(self).wf(),
        ensures
            final(self).wf(),
            r is Some <==> old(self)@.contains_key(*key),
            r matches Some(kv) ==> kv.0 == *key && kv.1 == old(self)@[*key]
                && final(self)@ == old(self)@.remove(*key)
                && final(self).spec_len() + 1 == old(self).spec_len(),
            r is None ==> *final(self) == *old(self),
    {
        if self.len() == 0 {
            proof {
                self.lemma_wf();
            }
            return None;
        }
        let (found, handle) = self.search_tree(key);
        if found {
            let entry = OccupiedEntry { handle, map: self };
            proof {
                entry.lemma_present();
            }
            Some(entry.remove_entry())
        } else {
            proof {
                self.lemma_gap_handle(*key, Some(handle));
            }
            None
        }
    }

    /// Removes `key`, returning its value; a map without the key is left
    /// as it was.
    pub fn remove(&mut self, key: &K) -> (r: Option<V>)
        requires
            old(self).wf(),
        ensures
            final(self).wf(),
            r is Some <==> old(self)@.contains_key(*key),
            r matches Some(v) ==> v == old(self)@[*key] && final(self)@ == old(self)@.remove(*key)
                && final(self).spec_len() + 1 == old(self).spec_len(),
            r is None ==> *final(self) == *old(self),
    {
        match self.remove_entry(key) {
            Some(kv) => Some(kv.1),
            None => None,
        }
    }
}

} // verus!
