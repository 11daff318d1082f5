use std::marker::PhantomData;
use vstd::prelude::*;

verus! {

/// A key of a [`Store`]: a value that converts to and from a `usize`.
pub trait StoreKey: Copy + Sized {
    /// The integer that the key stands for.
    spec fn key_index(self) -> usize;

    fn from_usize(value: usize) -> (key: Self)
        ensures
            key.key_index() == value,
    ;

    fn into_usize(self) -> (value: usize)
        ensures
            value == self.key_index(),
    ;
}

/// An ordered map from a key that is convertible to a `usize`, to any value
/// type. Insertion automatically generates a new key that has not yet been
/// used.
///
/// The view is the sequence of slots: slot `i` holds `Some(v)` when the key
/// `i` maps to `v`. Its length is the next key that insertion hands out.
#[derive(Debug)]
pub struct Store<K, V> {
    slots: Vec<Option<V>>,
    marker: PhantomData<K>,
}

impl<K, V> View for Store<K, V> {
    type V = Seq<Option<V>>;

    closed spec fn view(&self) -> Seq<Option<V>> {
        self.slots@
    }
}

/// Whether slot `i` of a store's view holds a value.
pub open spec fn slot_used<V>(slots: Seq<Option<V>>, i: int) -> bool {
    0 <= i < slots.len() && slots[i] is Some
}

impl<K: StoreKey, V> Store<K, V> {
    /// Whether the key `index` maps to a value.
    pub open spec fn has(&self, index: usize) -> bool {
        slot_used(self@, index as int)
    }

    /// The value that the key `index` maps to.
    pub open spec fn value(&self, index: usize) -> V {
        self@[index as int]->0
    }

    pub fn new() -> (store: Self)
        ensures
            store@ == Seq::<Option<V>>::empty(),
    {
        Store { slots: Vec::new(), marker: PhantomData }
    }

    /// The key that the next call of `reserve` or `insert` hands out.
    pub fn next_index(&self) -> (next: usize)
        ensures
            next == self@.len(),
    {
        self.slots.len()
    }

    /// Generate a key for future insertion without currently inserting into
    /// the map.
    pub fn reserve(&mut self) -> (key: K)
        requires
            old(self)@.len() < usize::MAX,
        ensures
            key.key_index() == old(self)@.len(),
            final(self)@ == old(self)@.push(None),
    {
        let id = self.slots.len();
        self.slots.push(None);
        K::from_usize(id)
    }

    pub fn insert(&mut self, value: V) -> (key: K)
        requires
            old(self)@.len() < usize::MAX,
        ensures
            key.key_index() == old(self)@.len(),
            final(self)@ == old(self)@.push(Some(value)),
    {
        let id = self.slots.len();
        self.slots.push(Some(value));
        K::from_usize(id)
    }

    /// Maps `id` to `value`, growing the store when `id` was never handed
    /// out.
    pub fn set(&mut self, id: K, value: V)
        requires
            id.key_index() < usize::MAX,
        ensures
            final(self)@.len() == if id.key_index() < old(self)@.len() {
                old(self)@.len() as int
            } else {
                id.key_index() + 1
            },
            final(self)@[id.key_index() as int] == Some(value),
            forall|i: int|
                0 <= i < final(self)@.len() && i != id.key_index() ==> #[trigger] final(self)@[i]
                    == if i < old(self)@.len() {
                    old(self)@[i]
                } else {
                    None
                },
    {
        let id = id.into_usize();
        while self.slots.len() <= id
            invariant
                id < usize::MAX,
                old(self)@.len() <= self.slots@.len() <= id + 1 || self.slots@.len()
                    == old(self)@.len(),
                self.slots@.len() >= old(self)@.len(),
                forall|i: int| 0 <= i < old(self)@.len() ==> #[trigger] self.slots@[i] == old(self)@[i],
                forall|i: int| old(self)@.len() <= i < self.slots@.len() ==> #[trigger] self.slots@[i] is None,
            decreases id + 1 - self.slots@.len(),
        {
            self.slots.push(None);
        }
        self.slots.set(id, Some(value));
    }

    /// Removes the value that `id` maps to, if there is one.
    pub fn remove(&mut self, id: K)
        ensures
            final(self)@ == if id.key_index() < old(self)@.len() {
                old(self)@.update(id.key_index() as int, None)
            } else {
                old(self)@
            },
    {
        let _ = self.take(id);
    }

    /// Removes and returns the value that `id` maps to, if there is one.
    pub fn take(&mut self, id: K) -> (value: Option<V>)
        ensures
            value == if id.key_index() < old(self)@.len() {
                old(self)@[id.key_index() as int]
            } else {
                None
            },
            final(self)@ == if id.key_index() < old(self)@.len() {
                old(self)@.update(id.key_index() as int, None)
            } else {
                old(self)@
            },
    {
        let id = id.into_usize();
        if id < self.slots.len() {
            self.slots[id].take()
        } else {
            None
        }
    }

    pub fn contains(&self, id: K) -> (result: bool)
        ensures
            result == self.has(id.key_index()),
    {
        let id = id.into_usize();
        id < self.slots.len() && self.slots[id].is_some()
    }

    /// The value that `id` maps to; `id` must be present.
    pub fn get(&self, id: K) -> (value: &V)
        requires
            self.has(id.key_index()),
        ensures
            *value == self.value(id.key_index()),
    {
        let id = id.into_usize();
        self.slots[id].as_ref().unwrap()
    }

    /// The keys that map to a value, in increasing order.
    pub fn keys(&self) -> (keys: Vec<K>)
        ensures
            forall|i: int| 0 <= i < keys@.len() ==> self.has(#[trigger] keys@[i].key_index()),
            forall|i: int, j: int|
                0 <= i < j < keys@.len() ==> keys@[i].key_index() < keys@[j].key_index(),
            forall|k: usize| self.has(k) ==> exists|i: int| 0 <= i < keys@.len() && #[trigger] keys@[i].key_index() == k,
    {
        let mut keys: Vec<K> = Vec::new();
        let mut i: usize = 0;
        while i < self.slots.len()
            invariant
                i <= self.slots@.len(),
                forall|j: int| 0 <= j < keys@.len() ==> self.has(#[trigger] keys@[j].key_index()),
                forall|j: int| 0 <= j < keys@.len() ==> #[trigger] keys@[j].key_index() < i,
                forall|a: int, b: int|
                    0 <= a < b < keys@.len() ==> keys@[a].key_index() < keys@[b].key_index(),
                forall|k: usize| k < i && self.has(k) ==> exists|j: int| 0 <= j < keys@.len() && #[trigger] keys@[j].key_index() == k,
            decreases self.slots@.len() - i,
        {
            let ghost old_keys = keys@;
            if self.slots[i].is_some() {
                let key = K::from_usize(i);
                keys.push(key);
                assert(keys@[keys@.len() - 1].key_index() == i);
            }
            assert forall|k: usize| k < i + 1 && self.has(k) implies exists|j: int|
                0 <= j < keys@.len() && #[trigger] keys@[j].key_index() == k by {
                if k < i {
                    let j = choose|j: int| 0 <= j < old_keys.len() && #[trigger] old_keys[j].key_index() == k;
                    assert(keys@[j] == old_keys[j]);
                } else {
                    assert(keys@[keys@.len() - 1].key_index() == k);
                }
            }
            i += 1;
        }
        keys
    }
}

impl<K: StoreKey, V: Copy> Store<K, V> {
    /// The keys that map to a value, in increasing order, each with a copy
    /// of its value.
    pub fn entries(&self) -> (entries: Vec<(K, V)>)
        ensures
            forall|i: int| 0 <= i < entries@.len() ==> self.has(#[trigger] entries@[i].0.key_index())
                && entries@[i].1 == self.value(entries@[i].0.key_index()),
            forall|i: int, j: int|
                0 <= i < j < entries@.len() ==> entries@[i].0.key_index() < entries@[j].0.key_index(),
            forall|k: usize| self.has(k) ==> exists|i: int| 0 <= i < entries@.len() && #[trigger] entries@[i].0.key_index() == k,
    {
        let keys = self.keys();
        let mut entries: Vec<(K, V)> = Vec::new();
        let mut i: usize = 0;
        while i < keys.len()
            invariant
                i <= keys@.len(),
                entries@.len() == i,
                forall|j: int| 0 <= j < keys@.len() ==> self.has(#[trigger] keys@[j].key_index()),
                forall|j: int| 0 <= j < i ==> (#[trigger] entries@[j]).0 == keys@[j] && entries@[j].1 == self.value(keys@[j].key_index()),
            decreases keys@.len() - i,
        {
            let key = keys[i];
            assert(self.has(keys@[i as int].key_index()));
            let value = *self.get(key);
            entries.push((key, value));
            i += 1;
        }
        proof {
            assert forall|k: usize| self.has(k) implies exists|i: int| 0 <= i < entries@.len() && #[trigger] entries@[i].0.key_index() == k by {
                let j = choose|j: int| 0 <= j < keys@.len() && #[trigger] keys@[j].key_index() == k;
                assert(entries@[j].0 == keys@[j]);
            }
            assert forall|i: int, j: int| 0 <= i < j < entries@.len() implies entries@[i].0.key_index() < entries@[j].0.key_index() by {
                assert(entries@[i].0 == keys@[i]);
                assert(entries@[j].0 == keys@[j]);
            }
        }
        entries
    }
}

} // verus!
