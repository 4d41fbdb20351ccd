//! A flat key/value store with linear lookup.
//!
//! Keys live in one fixed-capacity array, each paired with its precomputed
//! hash; values live in a parallel array. Lookup scans the keys, comparing
//! the cached hash before the key itself. Insertion appends, so `index`
//! reports positions in insertion order.

use crate::arena::Arena;
use crate::arena::alloc_end;
use crate::keys::StoreKey;
use crate::keys::distinct_keys;
use crate::keys::seq_has_key;
use crate::keys::seq_key_at;
use vstd::prelude::*;

verus! {

/// A stored key together with its cached 64-bit hash.
#[derive(Clone, Copy, Debug)]
pub struct Key<K> {
    pub hash: u64,
    pub value: K,
}

/// A fixed-capacity flat store of key/value pairs, scanned linearly.
pub struct Table<K: StoreKey, V> {
    keys: Vec<Key<K>>,
    values: Vec<V>,
    capacity: usize,
}

impl<K: StoreKey, V> View for Table<K, V> {
    type V = Seq<(K, V)>;

    /// The stored pairs, in insertion order.
    closed spec fn view(&self) -> Seq<(K, V)> {
        Seq::new(self.keys@.len(), |i: int| (self.keys@[i].value, self.values@[i]))
    }
}

impl<K: StoreKey, V> Table<K, V> {
    /// The fixed capacity.
    pub closed spec fn spec_capacity(self) -> nat {
        self.capacity as nat
    }

    /// The table's internal consistency: parallel arrays of one length
    /// within capacity, every cached hash faithful to its key, and pairwise
    /// distinct keys. Constructors establish it and methods preserve it.
    pub closed spec fn wf(self) -> bool {
        &&& self.keys@.len() == self.values@.len()
        &&& self.keys@.len() <= self.capacity
        &&& forall|i: int|
            0 <= i < self.keys@.len() ==> (#[trigger] self.keys@[i]).hash
                == self.keys@[i].value.spec_hash()
        &&& forall|i: int, j: int|
            0 <= i < j < self.keys@.len() ==> !(#[trigger] self.keys@[i].value.same_key(
                self.keys@[j].value,
            ))
    }

    /// Number of stored pairs, never more than the capacity; the keys are
    /// pairwise distinct.
    pub fn len(&self) -> (r: usize)
        requires
            self.wf(),
        ensures
            r == self@.len(),
            self@.len() <= self.spec_capacity(),
            distinct_keys(self@),
    {
        self.keys.len()
    }

    /// Whether nothing is stored.
    pub fn is_empty(&self) -> (r: bool)
        ensures
            r <==> self@.len() == 0,
    {
        self.keys.is_empty()
    }

    /// The fixed capacity.
    pub fn capacity(&self) -> (r: usize)
        ensures
            r == self.spec_capacity(),
    {
        self.capacity
    }

    /// The 0-based position of the pair holding `key`, in insertion order.
    pub fn index(&self, key: &K) -> (r: Option<usize>)
        requires
            self.wf(),
        ensures
            r is Some <==> seq_has_key(self@, *key),
            r is Some ==> {
                &&& r->Some_0 < self@.len()
                &&& self@[r->Some_0 as int].0.same_key(*key)
                &&& forall|j: int| 0 <= j < r->Some_0 ==> !(#[trigger] self@[j]).0.same_key(*key)
            },
    {
        let hash = key.key_hash();
        let n = self.keys.len();
        let mut i: usize = 0;
        while i < n
            invariant
                0 <= i <= n,
                n == self.keys@.len(),
                self.keys@.len() == self.values@.len(),
                hash == key.spec_hash(),
                forall|i0: int|
                    0 <= i0 < n ==> (#[trigger] self.keys@[i0]).hash
                        == self.keys@[i0].value.spec_hash(),
                forall|j: int| 0 <= j < i ==> !(#[trigger] self@[j]).0.same_key(*key),
            decreases n - i,
        {
            if self.keys[i].hash == hash && self.keys[i].value.key_eq(key) {
                proof {
                    assert(self@[i as int].0.same_key(*key));
                }
                return Some(i);
            }
            proof {
                self.keys@[i as int].value.lemma_same_key(*key, *key);
            }
            i = i + 1;
        }
        None
    }

    /// The value stored under `key`, if any.
    pub fn get(&self, key: &K) -> (r: Option<&V>)
        requires
            self.wf(),
        ensures
            r is Some <==> seq_has_key(self@, *key),
            r is Some ==> r == Some(&self@[seq_key_at(self@, *key)].1),
    {
        match self.index(key) {
            Some(i) => {
                proof {
                    crate::keys::lemma_key_at_unique(self@, *key, i as int);
                }
                Some(&self.values[i])
            },
            None => None,
        }
    }

    /// Whether a pair holds `key`.
    pub fn contains(&self, key: &K) -> (r: bool)
        requires
            self.wf(),
        ensures
            r <==> seq_has_key(self@, *key),
    {
        self.index(key).is_some()
    }
}

impl<K: StoreKey, V: Copy> Table<K, V> {
    /// A fresh, empty table whose two backing arrays are charged against
    /// the arena up front. Fails, restoring the arena's cursor, when the
    /// arrays do not fit in the arena's free bytes.
    pub fn new(arena: &mut Arena, capacity: usize) -> (r: Option<Table<K, V>>)
        ensures
            (alloc_end::<V>(
                alloc_end::<Key<K>>(old(arena).spec_len(), capacity as nat),
                capacity as nat,
            ) <= old(arena).spec_capacity()) <==> r is Some,
            r is Some ==> {
                &&& r->Some_0.wf()
                &&& r->Some_0@ == Seq::<(K, V)>::empty()
                &&& r->Some_0.spec_capacity() == capacity
                &&& final(arena).spec_len() == alloc_end::<V>(
                    alloc_end::<Key<K>>(old(arena).spec_len(), capacity as nat),
                    capacity as nat,
                )
            },
            r is None ==> final(arena).spec_len() == old(arena).spec_len(),
            final(arena).spec_capacity() == old(arena).spec_capacity(),
            final(arena).byte_seq() == old(arena).byte_seq(),
    {
        proof {
            broadcast use vstd::layout::align_nonzero;

        }
        let saved = arena.len();
        let keys_room = arena.allocate::<Key<K>>(capacity);
        if keys_room.is_none() {
            return None;
        }
        let values_room = arena.allocate::<V>(capacity);
        if values_room.is_none() {
            let _ = arena.seek(saved);
            return None;
        }
        let r = Table { keys: Vec::new(), values: Vec::new(), capacity };
        proof {
            assert(r@ =~= Seq::<(K, V)>::empty());
        }
        Some(r)
    }

    /// Stores `value` under `key`: overwrites the value in place when the
    /// key is present, appends a new pair when room is left, and otherwise
    /// fails leaving every prior pair unchanged.
    pub fn insert<'a>(&mut self, key: &K, value: &'a V) -> (r: Option<&'a V>)
        requires
            old(self).wf(),
        ensures
            final(self).wf(),
            seq_has_key(old(self)@, *key) ==> {
                &&& r == Some(value)
                &&& final(self)@ == old(self)@.update(
                    seq_key_at(old(self)@, *key),
                    (old(self)@[seq_key_at(old(self)@, *key)].0, *value),
                )
            },
            !seq_has_key(old(self)@, *key) && old(self)@.len() < old(self).spec_capacity() ==> {
                &&& r == Some(value)
                &&& final(self)@ == old(self)@.push((*key, *value))
            },
            !seq_has_key(old(self)@, *key) && old(self)@.len() == old(self).spec_capacity() ==> {
                &&& r is None
                &&& final(self)@ == old(self)@
            },
            final(self).spec_capacity() == old(self).spec_capacity(),
    {
        let hash = key.key_hash();
        let n = self.keys.len();
        let mut i: usize = 0;
        while i < n
            invariant
                0 <= i <= n,
                n == self.keys@.len(),
                self.keys@.len() == self.values@.len(),
                hash == key.spec_hash(),
                forall|i0: int|
                    0 <= i0 < n ==> (#[trigger] self.keys@[i0]).hash
                        == self.keys@[i0].value.spec_hash(),
                forall|i0: int, j0: int|
                    0 <= i0 < j0 < n ==> !(#[trigger] self.keys@[i0].value.same_key(
                        self.keys@[j0].value,
                    )),
                forall|j: int| 0 <= j < i ==> !(#[trigger] self@[j]).0.same_key(*key),
                old(self).wf(),
                *self == *old(self),
            decreases n - i,
        {
            if self.keys[i].hash == hash && self.keys[i].value.key_eq(key) {
                proof {
                    assert(self@[i as int].0.same_key(*key));
                }
                self.values[i] = *value;
                proof {
                    crate::keys::lemma_key_at_unique(old(self)@, *key, i as int);
                    assert(self@ =~= old(self)@.update(
                        i as int,
                        (old(self)@[i as int].0, *value),
                    ));
                    assert(self.keys@ == old(self).keys@);
                    assert(self.wf());
                }
                return Some(value);
            }
            proof {
                self.keys@[i as int].value.lemma_same_key(*key, *key);
            }
            i = i + 1;
        }
        if n < self.capacity {
            proof {
                assert(forall|j: int|
                    0 <= j < n ==> !(#[trigger] self.keys@[j].value.same_key(*key))) by {
                    assert forall|j: int| 0 <= j < n implies !(self.keys@[j].value.same_key(
                        *key,
                    )) by {
                        assert(self@[j].0 == self.keys@[j].value);
                    }
                }
            }
            self.keys.push(Key { hash, value: *key });
            self.values.push(*value);
            proof {
                assert(self@ =~= old(self)@.push((*key, *value)));
                assert(self.wf());
            }
            Some(value)
        } else {
            None
        }
    }

    /// The stored pairs, copied out in insertion order.
    pub fn entries(&self) -> (r: Vec<(K, V)>)
        requires
            self.wf(),
        ensures
            r@ == self@,
    {
        let n = self.keys.len();
        let mut out: Vec<(K, V)> = Vec::new();
        let mut i: usize = 0;
        while i < n
            invariant
                0 <= i <= n,
                n == self.keys@.len(),
                self.keys@.len() == self.values@.len(),
                out@.len() == i,
                forall|j: int| 0 <= j < i ==> out@[j] == self@[j],
            decreases n - i,
        {
            out.push((self.keys[i].value, self.values[i]));
            i = i + 1;
        }
        proof {
            assert(out@ =~= self@);
        }
        out
    }

    /// The stored keys, copied out in insertion order.
    pub fn keys(&self) -> (r: Vec<K>)
        requires
            self.wf(),
        ensures
            r@.len() == self@.len(),
            forall|i: int| 0 <= i < self@.len() ==> r@[i] == (#[trigger] self@[i]).0,
    {
        let n = self.keys.len();
        let mut out: Vec<K> = Vec::new();
        let mut i: usize = 0;
        while i < n
            invariant
                0 <= i <= n,
                n == self.keys@.len(),
                self.keys@.len() == self.values@.len(),
                out@.len() == i,
                forall|j: int| 0 <= j < i ==> out@[j] == (#[trigger] self@[j]).0,
            decreases n - i,
        {
            out.push(self.keys[i].value);
            i = i + 1;
        }
        out
    }

    /// The stored values, copied out in insertion order.
    pub fn values(&self) -> (r: Vec<V>)
        requires
            self.wf(),
        ensures
            r@.len() == self@.len(),
            forall|i: int| 0 <= i < self@.len() ==> r@[i] == (#[trigger] self@[i]).1,
    {
        let n = self.values.len();
        let mut out: Vec<V> = Vec::new();
        let mut i: usize = 0;
        while i < n
            invariant
                0 <= i <= n,
                n == self.values@.len(),
                self.keys@.len() == self.values@.len(),
                out@.len() == i,
                forall|j: int| 0 <= j < i ==> out@[j] == (#[trigger] self@[j]).1,
            decreases n - i,
        {
            out.push(self.values[i]);
            i = i + 1;
        }
        out
    }
}

} // verus!
