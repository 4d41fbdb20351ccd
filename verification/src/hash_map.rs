//! A chained hash table with a fixed bucket count.
//!
//! Each bucket slot holds its first entry inline; colliding entries are
//! carved from an arena one node at a time and linked by table indices.
//! The bucket array never grows: heavy collisions degrade lookups to a
//! chain scan but never lose entries.
//!
//! The view is the map each key leads to: a key is in the domain exactly
//! when its own bucket's entries hold an equivalent key.

use crate::arena::Arena;
use crate::arena::alloc_end;
use crate::keys::StoreKey;
use crate::keys::distinct_keys;
use crate::keys::seq_has_key;
use crate::keys::seq_key_at;
use vstd::prelude::*;

verus! {

/// One entry of the table: a key, its value, and the table index of the
/// next entry chained in the same bucket.
#[derive(Clone, Copy, Debug)]
pub struct Bucket<K, V> {
    key: K,
    value: V,
    next: Option<usize>,
}

/// Which bucket a hash selects among `buckets` many.
pub open spec fn spec_bucket(hash: u64, buckets: nat) -> nat
    recommends
        buckets > 0,
{
    (hash as nat) % buckets
}

/// `m` with `value` stored under `key`: every key equivalent to `key` now
/// leads to `value`, everything else is unchanged.
pub open spec fn map_upsert<K: StoreKey, V>(m: Map<K, V>, key: K, value: V) -> Map<K, V> {
    Map::new(
        |k: K| m.dom().contains(k) || k.same_key(key),
        |k: K|
            if k.same_key(key) {
                value
            } else {
                m[k]
            },
    )
}

/// `m` with the entry under `key` removed: no key equivalent to `key`
/// leads anywhere any more, everything else is unchanged.
pub open spec fn map_prune<K: StoreKey, V>(m: Map<K, V>, key: K) -> Map<K, V> {
    Map::new(|k: K| m.dom().contains(k) && !k.same_key(key), |k: K| m[k])
}

/// A fixed-bucket-count hash map with in-arena chaining.
pub struct HashMap<K: StoreKey, V> {
    slots: Vec<Option<Bucket<K, V>>>,
    nodes: Vec<Bucket<K, V>>,
    size: usize,
    chains: Ghost<Seq<Seq<usize>>>,
}

impl<K: StoreKey, V> View for HashMap<K, V> {
    type V = Map<K, V>;

    /// The stored associations: a key is present exactly when its bucket
    /// holds an equivalent key, and leads to that entry's value.
    closed spec fn view(&self) -> Map<K, V> {
        Map::new(
            |k: K| self.contains_spec(k),
            |k: K|
                {
                    let entries = self.bucket_entries(self.bucket_of(k));
                    entries[seq_key_at(entries, k)].1
                },
        )
    }
}

impl<K: StoreKey, V> HashMap<K, V> {
    /// The bucket `k` belongs to.
    closed spec fn bucket_of(self, k: K) -> int {
        spec_bucket(k.spec_hash(), self.slots@.len()) as int
    }

    /// The entries of bucket `b`: the inline slot entry, then the chained
    /// nodes in link order.
    closed spec fn bucket_entries(self, b: int) -> Seq<(K, V)> {
        match self.slots@[b] {
            None => Seq::empty(),
            Some(e) => seq![(e.key, e.value)] + self.chains@[b].map_values(
                |i: usize| (self.nodes@[i as int].key, self.nodes@[i as int].value),
            ),
        }
    }

    /// Whether some entry of `k`'s own bucket holds a key equivalent to
    /// `k`.
    closed spec fn contains_spec(self, k: K) -> bool {
        seq_has_key(self.bucket_entries(self.bucket_of(k)), k)
    }

    /// Entries held by the buckets below `b`.
    closed spec fn entries_below(self, b: int) -> nat
        decreases b,
    {
        if b <= 0 {
            0
        } else {
            self.entries_below(b - 1) + self.bucket_entries(b - 1).len()
        }
    }

    /// The consistency of one bucket `b`: the slot links to the chain, the
    /// chain's nodes link to each other, every entry's key belongs to `b`,
    /// and the keys are pairwise distinct.
    spec fn bucket_wf(self, b: int) -> bool {
        let ch = self.chains@[b];
        let n = self.nodes@;
        &&& forall|p: int| 0 <= p < ch.len() ==> (#[trigger] ch[p]) < n.len()
        &&& match self.slots@[b] {
            None => ch.len() == 0,
            Some(e) => {
                &&& e.next == (if ch.len() > 0 {
                    Some(ch[0])
                } else {
                    Option::<usize>::None
                })
                &&& spec_bucket(e.key.spec_hash(), self.slots@.len()) == b
            },
        }
        &&& forall|p: int|
            0 <= p < ch.len() - 1 ==> n[(#[trigger] ch[p]) as int].next == Some(ch[p + 1])
        &&& ch.len() > 0 ==> n[ch[ch.len() - 1] as int].next is None
        &&& forall|p: int|
            0 <= p < ch.len() ==> spec_bucket(
                n[(#[trigger] ch[p]) as int].key.spec_hash(),
                self.slots@.len(),
            ) == b
        &&& distinct_keys(self.bucket_entries(b))
    }

    /// The map's internal consistency: every bucket is consistent, chain
    /// node indices are globally distinct, and `size` counts the entries.
    /// Constructors establish it and methods preserve it.
    pub closed spec fn wf(self) -> bool {
        let nb = self.slots@.len();
        &&& nb > 0
        &&& self.chains@.len() == nb
        &&& forall|b: int| 0 <= b < nb ==> self.bucket_wf(b)
        &&& forall|b1: int, p1: int, b2: int, p2: int|
            0 <= b1 < nb && 0 <= p1 < self.chains@[b1].len() && 0 <= b2 < nb && 0 <= p2
                < self.chains@[b2].len() && (b1 != b2 || p1 != p2) ==> (
            #[trigger] self.chains@[b1][p1]) != (#[trigger] self.chains@[b2][p2])
        &&& self.size == self.entries_below(nb as int)
    }

    /// A fresh, empty map with `capacity` buckets, all charged to the
    /// arena up front. Fails, leaving the arena alone, when the bucket
    /// array does not fit in the arena's free bytes.
    pub fn new(arena: &mut Arena, capacity: usize) -> (r: Option<HashMap<K, V>>)
        requires
            capacity > 0,
        ensures
            (alloc_end::<Option<Bucket<K, V>>>(old(arena).spec_len(), capacity as nat) <= old(
                arena,
            ).spec_capacity()) <==> r is Some,
            r is Some ==> {
                &&& r->Some_0.wf()
                &&& r->Some_0@ == Map::<K, V>::empty()
                &&& r->Some_0.spec_capacity() == capacity
                &&& r->Some_0.spec_size() == 0
                &&& final(arena).spec_len() == alloc_end::<Option<Bucket<K, V>>>(
                    old(arena).spec_len(),
                    capacity as nat,
                )
            },
            r is None ==> final(arena).spec_len() == old(arena).spec_len(),
            final(arena).spec_capacity() == old(arena).spec_capacity(),
            final(arena).byte_seq() == old(arena).byte_seq(),
    {
        let room = arena.allocate::<Option<Bucket<K, V>>>(capacity);
        if room.is_none() {
            return None;
        }
        let mut slots: Vec<Option<Bucket<K, V>>> = Vec::new();
        while slots.len() < capacity
            invariant
                slots@.len() <= capacity,
                forall|b: int| 0 <= b < slots@.len() ==> slots@[b] is None,
            decreases capacity - slots@.len(),
        {
            slots.push(None);
        }
        let r = HashMap {
            slots,
            nodes: Vec::new(),
            size: 0,
            chains: Ghost(Seq::new(capacity as nat, |b: int| Seq::empty())),
        };
        proof {
            lemma_all_empty_below(r, capacity as int);
            assert(r@ =~= Map::<K, V>::empty());
        }
        Some(r)
    }

    /// Number of stored entries.
    pub closed spec fn spec_size(self) -> nat {
        self.size as nat
    }

    /// The fixed bucket count.
    pub closed spec fn spec_capacity(self) -> nat {
        self.slots@.len()
    }

    /// Number of stored entries.
    pub fn len(&self) -> (r: usize)
        ensures
            r == self.spec_size(),
    {
        self.size
    }

    /// Whether no entry is stored; on a consistent map this means no key
    /// leads anywhere.
    pub fn is_empty(&self) -> (r: bool)
        ensures
            r <==> self.spec_size() == 0,
            self.wf() && r ==> self@ == Map::<K, V>::empty(),
    {
        proof {
            if self.wf() && self.size == 0 {
                lemma_size_zero_all_empty(*self, self.slots@.len() as int);
                assert forall|k: K| !(#[trigger] self.contains_spec(k)) by {
                    crate::keys::lemma_key_refl(k);
                    assert(self.bucket_entries(self.bucket_of(k)).len() == 0);
                }
                assert(self@ =~= Map::<K, V>::empty());
            }
        }
        self.size == 0
    }

    /// The fixed bucket count.
    pub fn capacity(&self) -> (r: usize)
        ensures
            r == self.spec_capacity(),
    {
        self.slots.len()
    }

    /// The bucket slots, chained entries not included.
    pub fn buckets(&self) -> (r: &[Option<Bucket<K, V>>])
        ensures
            r@.len() == self.spec_capacity(),
    {
        self.slots.as_slice()
    }

    /// The value stored under `key`, if any.
    pub fn find(&self, key: &K) -> (r: Option<&V>)
        requires
            self.wf(),
        ensures
            r is Some <==> self@.dom().contains(*key),
            r is Some ==> r == Some(&self@[*key]),
    {
        let nbuckets = self.slots.len();
        let hash = key.key_hash();
        let b = (hash % (nbuckets as u64)) as usize;
        proof {
            assert(b as int == self.bucket_of(*key));
        }
        let ghost entries = self.bucket_entries(b as int);
        proof {
            assert(self.bucket_wf(b as int));
        }
        match &self.slots[b] {
            None => {
                proof {
                    assert(!self.contains_spec(*key));
                }
                None
            },
            Some(entry) => {
                if entry.key.key_eq(key) {
                    proof {
                        assert(entries[0].0.same_key(*key));
                        crate::keys::lemma_key_at_unique(entries, *key, 0);
                    }
                    return Some(&entry.value);
                }
                proof {
                    entry.key.lemma_same_key(*key, *key);
                }
                let mut cur = entry.next;
                let ghost mut p: int = 0;
                while cur.is_some()
                    invariant
                        self.wf(),
                        self.bucket_wf(b as int),
                        0 < self.slots@.len(),
                        b as int == self.bucket_of(*key),
                        self.slots@[b as int] is Some,
                        entries == self.bucket_entries(b as int),
                        0 <= p <= self.chains@[b as int].len(),
                        cur == if p < self.chains@[b as int].len() {
                            Some(self.chains@[b as int][p])
                        } else {
                            Option::<usize>::None
                        },
                        forall|q: int| 0 <= q <= p ==> !(#[trigger] entries[q]).0.same_key(*key),
                    decreases self.chains@[b as int].len() - p,
                {
                    let i = match cur {
                        Some(i) => i,
                        None => {
                            proof {
                                assert(false);
                            }
                            0
                        },
                    };
                    if self.nodes[i].key.key_eq(key) {
                        proof {
                            assert(entries[p + 1].0.same_key(*key));
                            crate::keys::lemma_key_at_unique(entries, *key, p + 1);
                        }
                        return Some(&self.nodes[i].value);
                    }
                    proof {
                        assert(entries[p + 1].0 == self.nodes@[i as int].key);
                    }
                    cur = self.nodes[i].next;
                    proof {
                        p = p + 1;
                    }
                }
                proof {
                    assert(forall|q: int|
                        0 <= q < entries.len() ==> !(#[trigger] entries[q]).0.same_key(*key));
                    assert(!self.contains_spec(*key));
                }
                None
            },
        }
    }

    /// Whether an entry holds `key`.
    pub fn contains(&self, key: &K) -> (r: bool)
        requires
            self.wf(),
        ensures
            r <==> self@.dom().contains(*key),
    {
        self.find(key).is_some()
    }


    /// Empties every bucket slot and resets the size; chain nodes already
    /// carved stay with the arena.
    pub fn clear(&mut self)
        requires
            old(self).wf(),
        ensures
            final(self).wf(),
            final(self)@ == Map::<K, V>::empty(),
            final(self).spec_size() == 0,
            final(self).spec_capacity() == old(self).spec_capacity(),
    {
        let n = self.slots.len();
        let mut i: usize = 0;
        while i < n
            invariant
                0 <= i <= n,
                n == self.slots@.len(),
                forall|b0: int| 0 <= b0 < i ==> self.slots@[b0] is None,
            decreases n - i,
        {
            self.slots[i] = None;
            i = i + 1;
        }
        self.size = 0;
        proof {
            self.chains@ = Seq::new(n as nat, |b: int| Seq::empty());
        }
        proof {
            lemma_all_empty_below(*self, n as int);
            assert(self@ =~= Map::<K, V>::empty());
        }
    }


    /// Whether storing `key`, when it is absent, must carve a chain node
    /// from the arena: its bucket's slot already holds an entry.
    pub closed spec fn needs_chain_node(self, k: K) -> bool {
        self.slots@[self.bucket_of(k)] is Some
    }
}

impl<K: StoreKey, V: Copy> HashMap<K, V> {
    /// The stored entries, copied out bucket by bucket, chains following
    /// their slot; every mapped key appears exactly once, and the order is
    /// an implementation detail.
    pub fn entries(&self) -> (r: Vec<(K, V)>)
        requires
            self.wf(),
        ensures
            r@.len() == self.spec_size(),
            forall|idx: int|
                0 <= idx < r@.len() ==> self@.dom().contains((#[trigger] r@[idx]).0) && self@[
                    r@[idx].0] == r@[idx].1,
            distinct_keys(r@),
    {
        let nbuckets = self.slots.len();
        let mut out: Vec<(K, V)> = Vec::new();
        let mut b: usize = 0;
        while b < nbuckets
            invariant
                self.wf(),
                0 <= b <= nbuckets,
                nbuckets == self.slots@.len(),
                out@.len() == self.entries_below(b as int),
                forall|idx: int|
                    0 <= idx < out@.len() ==> self@.dom().contains((#[trigger] out@[idx]).0)
                        && self@[out@[idx].0] == out@[idx].1,
                distinct_keys(out@),
                forall|idx: int|
                    0 <= idx < out@.len() ==> self.bucket_of((#[trigger] out@[idx]).0) < b,
            decreases nbuckets - b,
        {
            proof {
                assert(self.bucket_wf(b as int));
            }
            let ghost entries = self.bucket_entries(b as int);
            let ghost prior = out@.len() as int;
            match &self.slots[b] {
                None => {},
                Some(first) => {
                    proof {
                        lemma_entry_in_view(*self, b as int, 0);
                        lemma_entries_push_distinct(*self, out@, b as int, 0, prior);
                    }
                    out.push((first.key, first.value));
                    let mut cur = first.next;
                    let ghost mut p: int = 0;
                    while cur.is_some()
                        invariant
                            self.wf(),
                            self.bucket_wf(b as int),
                            0 <= b < nbuckets,
                            nbuckets == self.slots@.len(),
                            self.slots@[b as int] is Some,
                            entries == self.bucket_entries(b as int),
                            prior == self.entries_below(b as int),
                            0 <= p <= self.chains@[b as int].len(),
                            cur == (if p < self.chains@[b as int].len() {
                                Some(self.chains@[b as int][p])
                            } else {
                                Option::<usize>::None
                            }),
                            out@.len() == prior + 1 + p,
                            forall|idx: int|
                                0 <= idx < out@.len() ==> self@.dom().contains(
                                    (#[trigger] out@[idx]).0,
                                ) && self@[out@[idx].0] == out@[idx].1,
                            distinct_keys(out@),
                            forall|idx: int|
                                0 <= idx < prior ==> self.bucket_of((#[trigger] out@[idx]).0) < b,
                            forall|idx: int|
                                prior <= idx < out@.len() ==> out@[idx] == entries[idx - prior],
                        decreases self.chains@[b as int].len() - p,
                    {
                        let i = match cur {
                            Some(i) => i,
                            None => {
                                proof {
                                    assert(false);
                                }
                                0
                            },
                        };
                        proof {
                            lemma_entry_in_view(*self, b as int, p + 1);
                            lemma_entries_push_distinct(*self, out@, b as int, p + 1, prior);
                            assert(entries[p + 1] == (
                                self.nodes@[i as int].key,
                                self.nodes@[i as int].value,
                            ));
                        }
                        out.push((self.nodes[i].key, self.nodes[i].value));
                        cur = self.nodes[i].next;
                        proof {
                            p = p + 1;
                        }
                    }
                },
            }
            proof {
                assert forall|idx: int|
                    0 <= idx < out@.len() implies self.bucket_of((#[trigger] out@[idx]).0) < b
                    + 1 by {
                    if idx >= prior {
                        lemma_entry_bucket(*self, b as int, idx - prior);
                    }
                }
            }
            b = b + 1;
        }
        out
    }

    /// Removes the entry under `key` and yields its value, or fails when
    /// no entry holds `key`. Removing a bucket's inline entry promotes its
    /// first chained entry, if any, into the slot by copying it there.
    #[verifier::rlimit(100)]
    pub fn remove(&mut self, key: &K) -> (r: Option<V>)
        requires
            old(self).wf(),
        ensures
            final(self).wf(),
            final(self).spec_capacity() == old(self).spec_capacity(),
            old(self)@.dom().contains(*key) ==> {
                &&& r == Some(old(self)@[*key])
                &&& final(self)@ == map_prune(old(self)@, *key)
                &&& final(self).spec_size() == old(self).spec_size() - 1
            },
            !old(self)@.dom().contains(*key) ==> r is None && *final(self) == *old(self),
    {
        let nbuckets = self.slots.len();
        let hash = key.key_hash();
        let b = (hash % (nbuckets as u64)) as usize;
        proof {
            assert(b as int == self.bucket_of(*key));
            assert(self.bucket_wf(b as int));
        }
        let ghost pre = *self;
        let ghost entries = self.bucket_entries(b as int);
        let slot = self.slots[b];
        match slot {
            None => {
                proof {
                    assert(!pre.contains_spec(*key));
                }
                None
            },
            Some(first) => {
                if first.key.key_eq(key) {
                    proof {
                        assert(entries[0].0.same_key(*key));
                        crate::keys::lemma_key_at_unique(entries, *key, 0);
                        assert(pre.contains_spec(*key));
                        lemma_bucket_le_total(pre, b as int, nbuckets as int);
                    }
                    match first.next {
                        None => {
                            self.slots[b] = None;
                            self.size = self.size - 1;
                            proof {
                                assert(self.chains@[b as int].len() == 0);
                                assert(self.bucket_entries(b as int) =~= entries.remove(0));
                            }
                        },
                        Some(c0) => {
                            proof {
                                assert(self.chains@[b as int][0] == c0);
                            }
                            let second = self.nodes[c0];
                            self.slots[b] = Some(second);
                            self.size = self.size - 1;
                            proof {
                                self.chains@ = self.chains@.update(
                                    b as int,
                                    pre.chains@[b as int].drop_first(),
                                );
                            }
                            proof {
                                assert(self.chains@[b as int] =~= pre.chains@[
                                    b as int].remove(0));
                                assert(self.bucket_entries(b as int) =~= entries.remove(0));
                            }
                        },
                    }
                    proof {
                        assert forall|b0: int|
                            #![trigger self.bucket_wf(b0)]
                            #![trigger self.bucket_entries(b0)]
                            0 <= b0 < nbuckets && b0 != b implies self.bucket_entries(b0)
                            == pre.bucket_entries(b0) && self.bucket_wf(b0) by {
                            lemma_bucket_frame(pre, *self, b0);
                        }
                        assert(self.bucket_wf(b as int));
                        lemma_entries_below_change(pre, *self, b as int, nbuckets as int);
                        assert(self.size == self.entries_below(nbuckets as int));
                        lemma_assemble_wf_remove(
                            pre,
                            *self,
                            b as int,
                            if pre.chains@[b as int].len() > 0 {
                                0
                            } else {
                                pre.chains@[b as int].len() as int
                            },
                        );
                        lemma_view_prune(pre, *self, *key, 0);
                    }
                    return Some(first.value);
                }
                let mut prev: Option<usize> = None;
                let mut cur = match first.next {
                    None => {
                        proof {
                            assert(self.chains@[b as int].len() == 0);
                            assert(entries.len() == 1);
                            assert(!seq_has_key(entries, *key));
                            assert(!pre.contains_spec(*key));
                        }
                        return None;
                    },
                    Some(c0) => c0,
                };
                let ghost mut p: int = 0;
                loop
                    invariant
                        old(self).wf(),
                        *self == *old(self),
                        pre == *old(self),
                        self.bucket_wf(b as int),
                        0 < nbuckets == self.slots@.len(),
                        b < nbuckets,
                        b as int == self.bucket_of(*key),
                        entries == self.bucket_entries(b as int),
                        self.slots@[b as int] == Some(first),
                        0 <= p < self.chains@[b as int].len(),
                        cur == self.chains@[b as int][p],
                        prev == (if p == 0 {
                            Option::<usize>::None
                        } else {
                            Some(self.chains@[b as int][p - 1])
                        }),
                        forall|q: int| 0 <= q <= p ==> !(#[trigger] entries[q]).0.same_key(*key),
                    decreases self.chains@[b as int].len() - p,
                {
                    if self.nodes[cur].key.key_eq(key) {
                        proof {
                            assert(entries[p + 1].0.same_key(*key));
                            lemma_bucket_le_total(pre, b as int, nbuckets as int);
                        }
                        let out = self.nodes[cur].value;
                        let unlink = self.nodes[cur].next;
                        match prev {
                            None => {
                                self.slots[b] = Some(
                                    Bucket { key: first.key, value: first.value, next: unlink },
                                );
                            },
                            Some(pv) => {
                                let mut relinked = self.nodes[pv];
                                relinked.next = unlink;
                                self.nodes[pv] = relinked;
                            },
                        }
                        self.size = self.size - 1;
                        proof {
                            self.chains@ = self.chains@.update(
                                b as int,
                                pre.chains@[b as int].remove(p),
                            );
                        }
                        proof {
                            lemma_remove_unlink_post(pre, *self, *key, b as int, p);
                        }
                        return Some(out);
                    }
                    proof {
                        assert(entries[p + 1].0 == self.nodes@[cur as int].key);
                    }
                    prev = Some(cur);
                    match self.nodes[cur].next {
                        Some(nx) => {
                            cur = nx;
                            proof {
                                p = p + 1;
                            }
                        },
                        None => {
                            proof {
                                assert(p == self.chains@[b as int].len() - 1);
                                assert(forall|q: int|
                                    0 <= q < entries.len() ==> !(#[trigger] entries[q]).0.same_key(
                                        *key,
                                    ));
                                assert(!pre.contains_spec(*key));
                            }
                            return None;
                        },
                    }
                }
            },
        }
    }

    /// Stores `value` under `key`. A present key has its value overwritten
    /// in place; an absent key goes into its bucket's free slot, or into a
    /// fresh chain node carved from the arena. Only that carving can fail:
    /// the map and arena are then unchanged.
    #[verifier::rlimit(100)]
    pub fn insert<'a>(&mut self, arena: &mut Arena, key: &K, value: &'a V) -> (r: Option<&'a V>)
        requires
            old(self).wf(),
            old(self).spec_size() < usize::MAX,
        ensures
            final(self).wf(),
            final(self).spec_capacity() == old(self).spec_capacity(),
            final(arena).spec_capacity() == old(arena).spec_capacity(),
            final(arena).byte_seq() == old(arena).byte_seq(),
            old(self)@.dom().contains(*key) ==> {
                &&& r == Some(value)
                &&& final(self)@ == map_upsert(old(self)@, *key, *value)
                &&& final(self).spec_size() == old(self).spec_size()
                &&& *final(arena) == *old(arena)
            },
            !old(self)@.dom().contains(*key) && !old(self).needs_chain_node(*key) ==> {
                &&& r == Some(value)
                &&& final(self)@ == map_upsert(old(self)@, *key, *value)
                &&& final(self).spec_size() == old(self).spec_size() + 1
                &&& *final(arena) == *old(arena)
            },
            !old(self)@.dom().contains(*key) && old(self).needs_chain_node(*key) ==> {
                &&& (alloc_end::<Bucket<K, V>>(old(arena).spec_len(), 1)
                    <= old(arena).spec_capacity()) <==> r is Some
                &&& r is Some ==> r == Some(value)
                    && final(self)@ == map_upsert(old(self)@, *key, *value)
                    && final(self).spec_size() == old(self).spec_size() + 1
                    && final(arena).spec_len() == alloc_end::<Bucket<K, V>>(old(arena).spec_len(), 1)
                &&& r is None ==> *final(self) == *old(self)
                    && final(arena).spec_len() == old(arena).spec_len()
            },
    {
        let nbuckets = self.slots.len();
        let hash = key.key_hash();
        let b = (hash % (nbuckets as u64)) as usize;
        proof {
            assert(b as int == self.bucket_of(*key));
            assert(self.bucket_wf(b as int));
        }
        let ghost pre = *self;
        let ghost entries = self.bucket_entries(b as int);
        let slot = self.slots[b];
        match slot {
            None => {
                self.slots[b] = Some(Bucket { key: *key, value: *value, next: None });
                self.size = self.size + 1;
                proof {
                    assert(entries =~= Seq::<(K, V)>::empty());
                    lemma_insert_grow_post(pre, *self, *key, *value, b as int, 0);
                }
                Some(value)
            },
            Some(first) => {
                if first.key.key_eq(key) {
                    self.slots[b] = Some(
                        Bucket { key: first.key, value: *value, next: first.next },
                    );
                    proof {
                        assert(entries[0].0.same_key(*key));
                        lemma_insert_overwrite_post(pre, *self, *key, *value, b as int, 0);
                    }
                    return Some(value);
                }
                match first.next {
                    None => {
                        proof {
                            assert(self.chains@[b as int].len() == 0);
                            assert(entries.len() == 1);
                            assert(!seq_has_key(entries, *key));
                            assert(!pre.contains_spec(*key));
                        }
                        let room = arena.allocate::<Bucket<K, V>>(1);
                        if room.is_none() {
                            return None;
                        }
                        let idx = self.nodes.len();
                        self.nodes.push(Bucket { key: *key, value: *value, next: None });
                        self.slots[b] = Some(
                            Bucket { key: first.key, value: first.value, next: Some(idx) },
                        );
                        self.size = self.size + 1;
                        proof {
                            self.chains@ = self.chains@.update(b as int, seq![idx]);
                        }
                        proof {
                            assert(self.chains@[b as int] =~= pre.chains@[b as int].push(idx));
                            lemma_insert_grow_post(pre, *self, *key, *value, b as int, idx);
                        }
                        Some(value)
                    },
                    Some(c0) => {
                        let mut i = c0;
                        let ghost mut p: int = 0;
                        proof {
                            assert(entries[0] == (first.key, first.value));
                        }
                        while self.nodes[i].next.is_some()
                            invariant
                                old(self).wf(),
                                *self == *old(self),
                                pre == *old(self),
                                self.bucket_wf(b as int),
                                0 < nbuckets == self.slots@.len(),
                                b < nbuckets,
                                b as int == self.bucket_of(*key),
                                entries == self.bucket_entries(b as int),
                                self.slots@[b as int] is Some,
                                0 <= p < self.chains@[b as int].len(),
                                i == self.chains@[b as int][p],
                                forall|q: int|
                                    0 <= q <= p ==> !(#[trigger] entries[q]).0.same_key(*key),
                            decreases self.chains@[b as int].len() - p,
                        {
                            if self.nodes[i].key.key_eq(key) {
                                let mut updated = self.nodes[i];
                                updated.value = *value;
                                self.nodes[i] = updated;
                                proof {
                                    assert(entries[p + 1].0.same_key(*key));
                                    lemma_insert_overwrite_post(
                                        pre,
                                        *self,
                                        *key,
                                        *value,
                                        b as int,
                                        p + 1,
                                    );
                                }
                                return Some(value);
                            }
                            proof {
                                assert(entries[p + 1].0 == self.nodes@[i as int].key);
                            }
                            let nxt = match self.nodes[i].next {
                                Some(nx) => nx,
                                None => {
                                    proof {
                                        assert(false);
                                    }
                                    0
                                },
                            };
                            i = nxt;
                            proof {
                                p = p + 1;
                            }
                        }
                        proof {
                            assert(p == self.chains@[b as int].len() - 1);
                        }
                        if self.nodes[i].key.key_eq(key) {
                            let mut updated = self.nodes[i];
                            updated.value = *value;
                            self.nodes[i] = updated;
                            proof {
                                assert(entries[p + 1].0.same_key(*key));
                                lemma_insert_overwrite_post(
                                    pre,
                                    *self,
                                    *key,
                                    *value,
                                    b as int,
                                    p + 1,
                                );
                            }
                            return Some(value);
                        }
                        proof {
                            assert(entries[p + 1].0 == self.nodes@[i as int].key);
                            assert(forall|q: int|
                                0 <= q < entries.len() ==> !(#[trigger] entries[q]).0.same_key(
                                    *key,
                                ));
                            assert(!pre.contains_spec(*key));
                        }
                        let room = arena.allocate::<Bucket<K, V>>(1);
                        if room.is_none() {
                            return None;
                        }
                        let idx = self.nodes.len();
                        self.nodes.push(Bucket { key: *key, value: *value, next: None });
                        let mut relinked = self.nodes[i];
                        relinked.next = Some(idx);
                        self.nodes[i] = relinked;
                        self.size = self.size + 1;
                        proof {
                            self.chains@ = self.chains@.update(
                                b as int,
                                pre.chains@[b as int].push(idx),
                            );
                        }
                        proof {
                            assert(i == pre.chains@[b as int][pre.chains@[b as int].len() - 1]);
                            lemma_insert_grow_post(pre, *self, *key, *value, b as int, idx);
                        }
                        Some(value)
                    },
                }
            },
        }
    }
}

/// A map whose buckets are all empty holds no entries below any bound.
proof fn lemma_all_empty_below<K: StoreKey, V>(m: HashMap<K, V>, b: int)
    requires
        forall|b0: int| 0 <= b0 < m.slots@.len() ==> m.slots@[b0] is None,
        b <= m.slots@.len(),
    ensures
        m.entries_below(b) == 0,
    decreases b,
{
    if b > 0 {
        lemma_all_empty_below(m, b - 1);
    }
}

/// A bucket left untouched keeps its entries and its consistency, even as
/// the node table grows or changes elsewhere.
proof fn lemma_bucket_frame<K: StoreKey, V>(pre: HashMap<K, V>, post: HashMap<K, V>, b: int)
    requires
        0 <= b < pre.slots@.len(),
        post.slots@.len() == pre.slots@.len(),
        post.chains@.len() == pre.chains@.len(),
        post.slots@[b] == pre.slots@[b],
        post.chains@[b] == pre.chains@[b],
        pre.bucket_wf(b),
        pre.nodes@.len() <= post.nodes@.len(),
        forall|p: int|
            0 <= p < pre.chains@[b].len() ==> post.nodes@[(#[trigger] pre.chains@[b][p]) as int]
                == pre.nodes@[pre.chains@[b][p] as int],
    ensures
        post.bucket_entries(b) == pre.bucket_entries(b),
        post.bucket_wf(b),
{
    assert(post.bucket_entries(b) =~= pre.bucket_entries(b));
}

/// How the entry count below `b` moves when at most the one bucket `bb`
/// changed.
proof fn lemma_entries_below_change<K: StoreKey, V>(
    pre: HashMap<K, V>,
    post: HashMap<K, V>,
    bb: int,
    b: int,
)
    requires
        post.slots@.len() == pre.slots@.len(),
        forall|b0: int|
            0 <= b0 < pre.slots@.len() && b0 != bb ==> post.bucket_entries(b0)
                == pre.bucket_entries(b0),
        0 <= b <= pre.slots@.len(),
    ensures
        0 <= bb < b ==> post.entries_below(b) == pre.entries_below(b)
            - pre.bucket_entries(bb).len() + post.bucket_entries(bb).len(),
        !(0 <= bb < b) ==> post.entries_below(b) == pre.entries_below(b),
    decreases b,
{
    if b > 0 {
        lemma_entries_below_change(pre, post, bb, b - 1);
    }
}

/// Storing `value` over the entry at position `t` of `key`'s bucket turns
/// the view into `map_upsert`.
proof fn lemma_view_upsert_update<K: StoreKey, V>(
    pre: HashMap<K, V>,
    post: HashMap<K, V>,
    key: K,
    value: V,
    t: int,
)
    requires
        pre.wf(),
        post.slots@.len() == pre.slots@.len(),
        forall|b0: int|
            0 <= b0 < pre.slots@.len() && b0 != pre.bucket_of(key) ==> post.bucket_entries(b0)
                == pre.bucket_entries(b0),
        0 <= t < pre.bucket_entries(pre.bucket_of(key)).len(),
        pre.bucket_entries(pre.bucket_of(key))[t].0.same_key(key),
        post.bucket_entries(pre.bucket_of(key)) == pre.bucket_entries(
            pre.bucket_of(key),
        ).update(t, (pre.bucket_entries(pre.bucket_of(key))[t].0, value)),
    ensures
        post@ == map_upsert(pre@, key, value),
{
    let nb = pre.slots@.len() as int;
    let bb = pre.bucket_of(key);
    let pe = pre.bucket_entries(bb);
    let qe = post.bucket_entries(bb);
    assert(pre.bucket_wf(bb));
    assert(forall|q: int| 0 <= q < qe.len() ==> (#[trigger] qe[q]).0 == pe[q].0);
    assert forall|k: K| #[trigger] post.contains_spec(k) <==> (pre.contains_spec(k)
        || k.same_key(key)) by {
        let bk = pre.bucket_of(k);
        if k.same_key(key) {
            crate::keys::lemma_key_hash(k, key);
            assert(bk == bb);
            crate::keys::lemma_key_sym(k, key);
            crate::keys::lemma_key_trans(pe[t].0, key, k);
            assert(qe[t].0.same_key(k));
            assert(seq_has_key(qe, k));
        } else if bk == bb {
            if seq_has_key(pe, k) {
                let w = seq_key_at(pe, k);
                assert(qe[w].0.same_key(k));
                assert(seq_has_key(qe, k));
            }
            if seq_has_key(qe, k) {
                let w = seq_key_at(qe, k);
                assert(pe[w].0.same_key(k));
                assert(seq_has_key(pe, k));
            }
        }
    }
    assert forall|k: K| #[trigger] post.contains_spec(k) implies {
        let entries = post.bucket_entries(post.bucket_of(k));
        entries[seq_key_at(entries, k)].1 == (if k.same_key(key) {
            value
        } else {
            pre@[k]
        })
    } by {
        let bk = pre.bucket_of(k);
        if k.same_key(key) {
            crate::keys::lemma_key_hash(k, key);
            crate::keys::lemma_key_sym(k, key);
            crate::keys::lemma_key_trans(pe[t].0, key, k);
            crate::keys::lemma_key_at_unique(qe, k, t);
        } else if bk == bb {
            let w = seq_key_at(pe, k);
            assert(pe[w].0.same_key(k));
            if w == t {
                crate::keys::lemma_key_sym(pe[t].0, k);
                crate::keys::lemma_key_trans(k, pe[t].0, key);
                assert(false);
            }
            crate::keys::lemma_key_at_unique(qe, k, w);
            crate::keys::lemma_key_at_unique(pe, k, w);
        }
    }
    assert(post.view() =~= map_upsert(pre.view(), key, value));
}

/// Appending a `key`/`value` entry to `key`'s bucket, absent before, turns
/// the view into `map_upsert`.
proof fn lemma_view_upsert_append<K: StoreKey, V>(
    pre: HashMap<K, V>,
    post: HashMap<K, V>,
    key: K,
    value: V,
)
    requires
        pre.wf(),
        post.slots@.len() == pre.slots@.len(),
        forall|b0: int|
            0 <= b0 < pre.slots@.len() && b0 != pre.bucket_of(key) ==> post.bucket_entries(b0)
                == pre.bucket_entries(b0),
        !seq_has_key(pre.bucket_entries(pre.bucket_of(key)), key),
        post.bucket_entries(pre.bucket_of(key)) == pre.bucket_entries(pre.bucket_of(key)).push(
            (key, value),
        ),
    ensures
        post@ == map_upsert(pre@, key, value),
{
    let bb = pre.bucket_of(key);
    let pe = pre.bucket_entries(bb);
    let qe = post.bucket_entries(bb);
    assert(pre.bucket_wf(bb));
    let last = pe.len() as int;
    assert(qe[last].0 == key);
    assert(forall|q: int| 0 <= q < last ==> (#[trigger] qe[q]) == pe[q]);
    assert forall|q: int| 0 <= q < last implies !(#[trigger] qe[q]).0.same_key(key) by {
        assert(!pe[q].0.same_key(key));
    }
    assert(distinct_keys(qe)) by {
        assert forall|i: int, j: int| 0 <= i < j < qe.len() implies !(#[trigger] qe[i].0.same_key(
            qe[j].0,
        )) by {
            if j == last {
                assert(!qe[i].0.same_key(key));
            }
        }
    }
    assert forall|k: K| #[trigger] post.contains_spec(k) <==> (pre.contains_spec(k)
        || k.same_key(key)) by {
        let bk = pre.bucket_of(k);
        if k.same_key(key) {
            crate::keys::lemma_key_hash(k, key);
            crate::keys::lemma_key_sym(k, key);
            assert(qe[last].0.same_key(k));
            assert(seq_has_key(qe, k));
        } else if bk == bb {
            if seq_has_key(pe, k) {
                let w = seq_key_at(pe, k);
                assert(qe[w].0.same_key(k));
                assert(seq_has_key(qe, k));
            }
            if seq_has_key(qe, k) {
                let w = seq_key_at(qe, k);
                if w == last {
                    crate::keys::lemma_key_sym(qe[w].0, k);
                    assert(false);
                }
                assert(pe[w].0.same_key(k));
                assert(seq_has_key(pe, k));
            }
        }
    }
    assert forall|k: K| #[trigger] post.contains_spec(k) implies {
        let entries = post.bucket_entries(post.bucket_of(k));
        entries[seq_key_at(entries, k)].1 == (if k.same_key(key) {
            value
        } else {
            pre@[k]
        })
    } by {
        let bk = pre.bucket_of(k);
        if k.same_key(key) {
            crate::keys::lemma_key_hash(k, key);
            crate::keys::lemma_key_sym(k, key);
            assert(qe[last].0.same_key(k));
            crate::keys::lemma_key_at_unique(qe, k, last);
        } else if bk == bb {
            let w = seq_key_at(pe, k);
            assert(pe[w].0.same_key(k));
            crate::keys::lemma_key_at_unique(qe, k, w);
            crate::keys::lemma_key_at_unique(pe, k, w);
        }
    }
    assert(post.view() =~= map_upsert(pre.view(), key, value));
}

/// Reassembles full consistency after a change confined to bucket `b`,
/// where any chain position added to `b` holds a node index that is new to
/// the table.
proof fn lemma_assemble_wf<K: StoreKey, V>(pre: HashMap<K, V>, post: HashMap<K, V>, b: int)
    requires
        pre.wf(),
        0 <= b < post.slots@.len(),
        post.slots@.len() == pre.slots@.len(),
        post.chains@.len() == post.slots@.len(),
        forall|b0: int|
            0 <= b0 < post.slots@.len() && b0 != b ==> #[trigger] post.bucket_wf(b0),
        post.bucket_wf(b),
        forall|b0: int|
            0 <= b0 < post.slots@.len() && b0 != b ==> post.chains@[b0] == pre.chains@[b0],
        post.chains@[b].len() <= pre.chains@[b].len() + 1,
        forall|q: int|
            0 <= q < pre.chains@[b].len() && q < post.chains@[b].len() ==> post.chains@[b][q]
                == pre.chains@[b][q],
        forall|q: int|
            pre.chains@[b].len() <= q < post.chains@[b].len() ==> (#[trigger] post.chains@[b][q])
                >= pre.nodes@.len(),
        post.size == post.entries_below(post.slots@.len() as int),
    ensures
        post.wf(),
{
    let nb = post.slots@.len();
    assert forall|b1: int, p1: int, b2: int, p2: int|
        0 <= b1 < nb && 0 <= p1 < post.chains@[b1].len() && 0 <= b2 < nb && 0 <= p2
            < post.chains@[b2].len() && (b1 != b2 || p1 != p2) implies (
    #[trigger] post.chains@[b1][p1]) != (#[trigger] post.chains@[b2][p2]) by {
        assert(pre.bucket_wf(b1));
        assert(pre.bucket_wf(b2));
        let fresh1 = b1 == b && p1 >= pre.chains@[b].len();
        let fresh2 = b2 == b && p2 >= pre.chains@[b].len();
        if fresh1 && fresh2 {
            assert(p1 == p2 && b1 == b2);
        } else if fresh1 {
            assert(post.chains@[b2][p2] == pre.chains@[b2][p2]);
            assert(pre.chains@[b2][p2] < pre.nodes@.len());
        } else if fresh2 {
            assert(post.chains@[b1][p1] == pre.chains@[b1][p1]);
            assert(pre.chains@[b1][p1] < pre.nodes@.len());
        } else {
            assert(post.chains@[b1][p1] == pre.chains@[b1][p1]);
            assert(post.chains@[b2][p2] == pre.chains@[b2][p2]);
        }
    }
}

/// Each bucket's entry count is part of the total below any later bound.
proof fn lemma_bucket_le_total<K: StoreKey, V>(m: HashMap<K, V>, b: int, bound: int)
    requires
        0 <= b < bound,
    ensures
        m.bucket_entries(b).len() <= m.entries_below(bound),
    decreases bound,
{
    if b < bound - 1 {
        lemma_bucket_le_total(m, b, bound - 1);
    }
}

/// Reassembles full consistency after dropping one chain position of
/// bucket `b`.
proof fn lemma_assemble_wf_remove<K: StoreKey, V>(
    pre: HashMap<K, V>,
    post: HashMap<K, V>,
    b: int,
    rq: int,
)
    requires
        pre.wf(),
        0 <= b < post.slots@.len(),
        post.slots@.len() == pre.slots@.len(),
        post.chains@.len() == post.slots@.len(),
        forall|b0: int|
            0 <= b0 < post.slots@.len() && b0 != b ==> #[trigger] post.bucket_wf(b0),
        post.bucket_wf(b),
        forall|b0: int|
            0 <= b0 < post.slots@.len() && b0 != b ==> post.chains@[b0] == pre.chains@[b0],
        0 <= rq <= pre.chains@[b].len(),
        post.chains@[b] == (if rq < pre.chains@[b].len() {
            pre.chains@[b].remove(rq)
        } else {
            pre.chains@[b]
        }),
        post.size == post.entries_below(post.slots@.len() as int),
    ensures
        post.wf(),
{
    let nb = post.slots@.len();
    assert forall|b1: int, p1: int, b2: int, p2: int|
        0 <= b1 < nb && 0 <= p1 < post.chains@[b1].len() && 0 <= b2 < nb && 0 <= p2
            < post.chains@[b2].len() && (b1 != b2 || p1 != p2) implies (
    #[trigger] post.chains@[b1][p1]) != (#[trigger] post.chains@[b2][p2]) by {
        let q1 = if b1 == b && rq < pre.chains@[b].len() && p1 >= rq {
            p1 + 1
        } else {
            p1
        };
        let q2 = if b2 == b && rq < pre.chains@[b].len() && p2 >= rq {
            p2 + 1
        } else {
            p2
        };
        assert(post.chains@[b1][p1] == pre.chains@[b1][q1]);
        assert(post.chains@[b2][p2] == pre.chains@[b2][q2]);
    }
}

/// Dropping the entry at position `t` of `key`'s bucket, where it held a
/// key equivalent to `key`, turns the view into `map_prune`.
proof fn lemma_view_prune<K: StoreKey, V>(
    pre: HashMap<K, V>,
    post: HashMap<K, V>,
    key: K,
    t: int,
)
    requires
        pre.wf(),
        post.slots@.len() == pre.slots@.len(),
        forall|b0: int|
            0 <= b0 < pre.slots@.len() && b0 != pre.bucket_of(key) ==> post.bucket_entries(b0)
                == pre.bucket_entries(b0),
        0 <= t < pre.bucket_entries(pre.bucket_of(key)).len(),
        pre.bucket_entries(pre.bucket_of(key))[t].0.same_key(key),
        post.bucket_entries(pre.bucket_of(key)) == pre.bucket_entries(pre.bucket_of(key)).remove(
            t,
        ),
    ensures
        post@ == map_prune(pre@, key),
{
    let bb = pre.bucket_of(key);
    let pe = pre.bucket_entries(bb);
    let qe = post.bucket_entries(bb);
    assert(pre.bucket_wf(bb));
    assert(forall|q: int| 0 <= q < t ==> (#[trigger] qe[q]) == pe[q]);
    assert(forall|q: int| t <= q < qe.len() ==> (#[trigger] qe[q]) == pe[q + 1]);
    assert forall|k: K| #[trigger] post.contains_spec(k) <==> (pre.contains_spec(k)
        && !k.same_key(key)) by {
        let bk = pre.bucket_of(k);
        if bk == bb {
            if seq_has_key(qe, k) {
                let w = seq_key_at(qe, k);
                let w0 = if w < t {
                    w
                } else {
                    w + 1
                };
                assert(pe[w0].0.same_key(k));
                assert(seq_has_key(pe, k));
                if k.same_key(key) {
                    crate::keys::lemma_key_sym(k, key);
                    crate::keys::lemma_key_trans(pe[w0].0, k, key);
                    crate::keys::lemma_key_at_unique(pe, key, w0);
                    crate::keys::lemma_key_at_unique(pe, key, t);
                    assert(false);
                }
            }
            if seq_has_key(pe, k) && !k.same_key(key) {
                let w0 = seq_key_at(pe, k);
                if w0 == t {
                    crate::keys::lemma_key_sym(pe[t].0, k);
                    crate::keys::lemma_key_trans(k, pe[t].0, key);
                    assert(false);
                }
                let w = if w0 < t {
                    w0
                } else {
                    w0 - 1
                };
                assert(qe[w].0.same_key(k));
                assert(seq_has_key(qe, k));
            }
        } else {
            if k.same_key(key) {
                crate::keys::lemma_key_hash(k, key);
                assert(false || bk == bb);
            }
        }
    }
    assert forall|k: K| #[trigger] post.contains_spec(k) implies {
        let entries = post.bucket_entries(post.bucket_of(k));
        entries[seq_key_at(entries, k)].1 == pre@[k]
    } by {
        let bk = pre.bucket_of(k);
        if bk == bb {
            assert(distinct_keys(qe)) by {
                assert forall|i: int, j: int|
                    0 <= i < j < qe.len() implies !(#[trigger] qe[i].0.same_key(qe[j].0)) by {
                    let i0 = if i < t {
                        i
                    } else {
                        i + 1
                    };
                    let j0 = if j < t {
                        j
                    } else {
                        j + 1
                    };
                    assert(qe[i].0 == pe[i0].0);
                    assert(qe[j].0 == pe[j0].0);
                }
            }
            let w = seq_key_at(qe, k);
            let w0 = if w < t {
                w
            } else {
                w + 1
            };
            assert(pe[w0].0.same_key(k));
            crate::keys::lemma_key_at_unique(qe, k, w);
            crate::keys::lemma_key_at_unique(pe, k, w0);
        }
    }
    assert(post.view() =~= map_prune(pre.view(), key));
}

/// Everything that follows from unlinking the chain entry at position `p`
/// of `key`'s bucket, whose key is equivalent to `key`: the map view loses
/// exactly `key`'s entry and consistency is preserved.
#[verifier::rlimit(100)]
proof fn lemma_remove_unlink_post<K: StoreKey, V>(
    pre: HashMap<K, V>,
    post: HashMap<K, V>,
    key: K,
    b: int,
    p: int,
)
    requires
        pre.wf(),
        0 <= b < pre.slots@.len(),
        b == pre.bucket_of(key),
        0 <= p < pre.chains@[b].len(),
        pre.slots@[b] is Some,
        pre.bucket_entries(b)[p + 1].0.same_key(key),
        post.slots@.len() == pre.slots@.len(),
        post.chains@ == pre.chains@.update(b, pre.chains@[b].remove(p)),
        post.size as int == pre.size - 1,
        p == 0 ==> post.nodes@ == pre.nodes@ && post.slots@ == pre.slots@.update(
            b,
            Some(
                Bucket {
                    key: pre.slots@[b]->Some_0.key,
                    value: pre.slots@[b]->Some_0.value,
                    next: pre.nodes@[pre.chains@[b][0] as int].next,
                },
            ),
        ),
        p > 0 ==> post.slots@ == pre.slots@ && post.nodes@ == pre.nodes@.update(
            pre.chains@[b][p - 1] as int,
            Bucket {
                key: pre.nodes@[pre.chains@[b][p - 1] as int].key,
                value: pre.nodes@[pre.chains@[b][p - 1] as int].value,
                next: pre.nodes@[pre.chains@[b][p] as int].next,
            },
        ),
    ensures
        post.wf(),
        post@ == map_prune(pre@, key),
        pre@.dom().contains(key),
        pre@[key] == pre.bucket_entries(b)[p + 1].1,
{
    let nb = pre.slots@.len() as int;
    let entries = pre.bucket_entries(b);
    assert(pre.bucket_wf(b));
    lemma_remove_unlink_bucket(pre, post, key, b, p);
    assert forall|b0: int|
        #![trigger post.bucket_wf(b0)]
        #![trigger post.bucket_entries(b0)]
        0 <= b0 < nb && b0 != b implies post.bucket_entries(b0) == pre.bucket_entries(b0)
        && post.bucket_wf(b0) by {
        assert forall|q: int|
            0 <= q < pre.chains@[b0].len() implies post.nodes@[(
        #[trigger] pre.chains@[b0][q]) as int] == pre.nodes@[pre.chains@[b0][q] as int] by {
            assert(pre.bucket_wf(b0));
            if p > 0 {
                assert(pre.chains@[b0][q] != pre.chains@[b][p - 1]);
            }
        }
        lemma_bucket_frame(pre, post, b0);
    }
    lemma_entries_below_change(pre, post, b, nb);
    assert(post.size == post.entries_below(nb));
    lemma_assemble_wf_remove(pre, post, b, p);
    crate::keys::lemma_key_at_unique(entries, key, p + 1);
    lemma_view_prune(pre, post, key, p + 1);
}

/// The bucket-local effect of the unlink in [`lemma_remove_unlink_post`]:
/// bucket `b` loses exactly its entry at position `p + 1` and stays
/// consistent.
#[verifier::rlimit(100)]
proof fn lemma_remove_unlink_bucket<K: StoreKey, V>(
    pre: HashMap<K, V>,
    post: HashMap<K, V>,
    key: K,
    b: int,
    p: int,
)
    requires
        pre.wf(),
        0 <= b < pre.slots@.len(),
        0 <= p < pre.chains@[b].len(),
        pre.slots@[b] is Some,
        post.slots@.len() == pre.slots@.len(),
        post.chains@ == pre.chains@.update(b, pre.chains@[b].remove(p)),
        p == 0 ==> post.nodes@ == pre.nodes@ && post.slots@ == pre.slots@.update(
            b,
            Some(
                Bucket {
                    key: pre.slots@[b]->Some_0.key,
                    value: pre.slots@[b]->Some_0.value,
                    next: pre.nodes@[pre.chains@[b][0] as int].next,
                },
            ),
        ),
        p > 0 ==> post.slots@ == pre.slots@ && post.nodes@ == pre.nodes@.update(
            pre.chains@[b][p - 1] as int,
            Bucket {
                key: pre.nodes@[pre.chains@[b][p - 1] as int].key,
                value: pre.nodes@[pre.chains@[b][p - 1] as int].value,
                next: pre.nodes@[pre.chains@[b][p] as int].next,
            },
        ),
    ensures
        post.bucket_entries(b) == pre.bucket_entries(b).remove(p + 1),
        post.bucket_wf(b),
{
    assert(pre.bucket_wf(b));
    assert(post.bucket_entries(b) =~= pre.bucket_entries(b).remove(p + 1));
    assert(post.bucket_wf(b));
}

/// Every entry of a consistent bucket is an association the view holds.
proof fn lemma_entry_in_view<K: StoreKey, V>(m: HashMap<K, V>, b: int, q: int)
    requires
        m.wf(),
        0 <= b < m.slots@.len(),
        0 <= q < m.bucket_entries(b).len(),
    ensures
        m@.dom().contains(m.bucket_entries(b)[q].0),
        m@[m.bucket_entries(b)[q].0] == m.bucket_entries(b)[q].1,
{
    let entries = m.bucket_entries(b);
    let k = entries[q].0;
    assert(m.bucket_wf(b));
    crate::keys::lemma_key_refl(k);
    if q == 0 {
        assert(m.slots@[b] is Some);
        assert(entries[0].0 == m.slots@[b]->Some_0.key);
        assert(m.bucket_of(k) == b);
    } else {
        assert(entries[q].0 == m.nodes@[m.chains@[b][q - 1] as int].key);
        assert(m.bucket_of(k) == b);
    }
    crate::keys::lemma_key_at_unique(entries, k, q);
}

/// A consistent map of size zero has no entry in any bucket below `b`.
proof fn lemma_size_zero_all_empty<K: StoreKey, V>(m: HashMap<K, V>, b: int)
    requires
        m.wf(),
        m.spec_size() == 0,
        b <= m.slots@.len(),
    ensures
        forall|b0: int| 0 <= b0 < b ==> (#[trigger] m.bucket_entries(b0)).len() == 0,
    decreases b,
{
    if b > 0 {
        lemma_size_zero_all_empty(m, b - 1);
        lemma_bucket_le_total(m, b - 1, m.slots@.len() as int);
    }
}

/// Everything that follows from overwriting the value of the entry at
/// position `t` of `key`'s bucket, whose key is equivalent to `key`: the
/// view becomes `map_upsert` and consistency is preserved.
#[verifier::rlimit(100)]
proof fn lemma_insert_overwrite_post<K: StoreKey, V>(
    pre: HashMap<K, V>,
    post: HashMap<K, V>,
    key: K,
    value: V,
    b: int,
    t: int,
)
    requires
        pre.wf(),
        0 <= b < pre.slots@.len(),
        b == pre.bucket_of(key),
        pre.slots@[b] is Some,
        0 <= t < pre.bucket_entries(b).len(),
        pre.bucket_entries(b)[t].0.same_key(key),
        post.slots@.len() == pre.slots@.len(),
        post.chains@ == pre.chains@,
        post.size == pre.size,
        t == 0 ==> post.nodes@ == pre.nodes@ && post.slots@ == pre.slots@.update(
            b,
            Some(
                Bucket {
                    key: pre.slots@[b]->Some_0.key,
                    value: value,
                    next: pre.slots@[b]->Some_0.next,
                },
            ),
        ),
        t > 0 ==> post.slots@ == pre.slots@ && post.nodes@ == pre.nodes@.update(
            pre.chains@[b][t - 1] as int,
            Bucket {
                key: pre.nodes@[pre.chains@[b][t - 1] as int].key,
                value: value,
                next: pre.nodes@[pre.chains@[b][t - 1] as int].next,
            },
        ),
    ensures
        post.wf(),
        post@ == map_upsert(pre@, key, value),
        pre@.dom().contains(key),
{
    let nb = pre.slots@.len() as int;
    let entries = pre.bucket_entries(b);
    assert(pre.bucket_wf(b));
    assert(post.bucket_entries(b) =~= entries.update(t, (entries[t].0, value)));
    assert forall|b0: int|
        #![trigger post.bucket_wf(b0)]
        #![trigger post.bucket_entries(b0)]
        0 <= b0 < nb && b0 != b implies post.bucket_entries(b0) == pre.bucket_entries(b0)
        && post.bucket_wf(b0) by {
        assert forall|q: int|
            0 <= q < pre.chains@[b0].len() implies post.nodes@[(
        #[trigger] pre.chains@[b0][q]) as int] == pre.nodes@[pre.chains@[b0][q] as int] by {
            assert(pre.bucket_wf(b0));
            if t > 0 {
                assert(pre.chains@[b0][q] != pre.chains@[b][t - 1]);
            }
        }
        lemma_bucket_frame(pre, post, b0);
    }
    assert(post.bucket_wf(b));
    lemma_entries_below_change(pre, post, b, nb);
    assert(post.size == post.entries_below(nb));
    lemma_assemble_wf(pre, post, b);
    crate::keys::lemma_key_at_unique(entries, key, t);
    lemma_view_upsert_update(pre, post, key, value, t);
}

/// Every entry of bucket `b` holds a key that belongs to bucket `b`.
proof fn lemma_entry_bucket<K: StoreKey, V>(m: HashMap<K, V>, b: int, q: int)
    requires
        m.wf(),
        0 <= b < m.slots@.len(),
        0 <= q < m.bucket_entries(b).len(),
    ensures
        m.bucket_of(m.bucket_entries(b)[q].0) == b,
{
    assert(m.bucket_wf(b));
    if q == 0 {
        assert(m.bucket_entries(b)[0].0 == m.slots@[b]->Some_0.key);
    } else {
        assert(m.bucket_entries(b)[q].0 == m.nodes@[m.chains@[b][q - 1] as int].key);
    }
}

/// Listing the next entry of bucket `b` after all entries of earlier
/// buckets and the bucket's own earlier entries keeps the listed keys
/// pairwise distinct.
proof fn lemma_entries_push_distinct<K: StoreKey, V>(
    m: HashMap<K, V>,
    listed: Seq<(K, V)>,
    b: int,
    q: int,
    prior: int,
)
    requires
        m.wf(),
        0 <= b < m.slots@.len(),
        0 <= q < m.bucket_entries(b).len(),
        distinct_keys(listed),
        0 <= prior <= listed.len(),
        forall|idx: int| 0 <= idx < prior ==> m.bucket_of((#[trigger] listed[idx]).0) < b,
        forall|idx: int|
            prior <= idx < listed.len() ==> listed[idx] == m.bucket_entries(b)[idx - prior],
        listed.len() - prior == q,
    ensures
        distinct_keys(listed.push(m.bucket_entries(b)[q])),
        m.bucket_of(m.bucket_entries(b)[q].0) == b,
{
    let e = m.bucket_entries(b)[q];
    lemma_entry_bucket(m, b, q);
    assert(m.bucket_wf(b));
    assert forall|idx: int| 0 <= idx < listed.len() implies !((#[trigger] listed[idx]).0.same_key(
        e.0,
    )) by {
        if idx < prior {
            if listed[idx].0.same_key(e.0) {
                crate::keys::lemma_key_hash(listed[idx].0, e.0);
                assert(false);
            }
        } else {
            assert(listed[idx] == m.bucket_entries(b)[idx - prior]);
        }
    }
    let pushed = listed.push(e);
    assert forall|i: int, j: int|
        0 <= i < j < pushed.len() implies !(#[trigger] pushed[i].0.same_key(pushed[j].0)) by {
        assert(pushed[i] == listed[i]);
        if j < listed.len() {
            assert(pushed[j] == listed[j]);
        } else {
            assert(pushed[j] == e);
        }
    }
}

/// Everything that follows from adding a `key`/`value` entry to `key`'s
/// bucket, absent before — into the free slot, onto a fresh first chain
/// node `idx`, or onto a fresh node `idx` linked after the chain's last:
/// the view becomes `map_upsert` and consistency is preserved.
#[verifier::rlimit(100)]
proof fn lemma_insert_grow_post<K: StoreKey, V>(
    pre: HashMap<K, V>,
    post: HashMap<K, V>,
    key: K,
    value: V,
    b: int,
    idx: usize,
)
    requires
        pre.wf(),
        0 <= b < pre.slots@.len(),
        b == pre.bucket_of(key),
        !seq_has_key(pre.bucket_entries(b), key),
        post.slots@.len() == pre.slots@.len(),
        post.size as int == pre.size + 1,
        pre.slots@[b] is Some ==> idx == pre.nodes@.len(),
        pre.slots@[b] is None ==> post.nodes@ == pre.nodes@ && post.chains@ == pre.chains@
            && post.slots@ == pre.slots@.update(
            b,
            Some(Bucket { key: key, value: value, next: None }),
        ),
        pre.slots@[b] is Some ==> post.chains@ == pre.chains@.update(
            b,
            pre.chains@[b].push(idx),
        ) && (if pre.chains@[b].len() == 0 {
            post.nodes@ == pre.nodes@.push(Bucket { key: key, value: value, next: None })
                && post.slots@ == pre.slots@.update(
                b,
                Some(
                    Bucket {
                        key: pre.slots@[b]->Some_0.key,
                        value: pre.slots@[b]->Some_0.value,
                        next: Some(idx),
                    },
                ),
            )
        } else {
            post.slots@ == pre.slots@ && post.nodes@ == pre.nodes@.push(
                Bucket { key: key, value: value, next: None },
            ).update(
                pre.chains@[b][pre.chains@[b].len() - 1] as int,
                Bucket {
                    key: pre.nodes@[pre.chains@[b][pre.chains@[b].len() - 1] as int].key,
                    value: pre.nodes@[pre.chains@[b][pre.chains@[b].len() - 1] as int].value,
                    next: Some(idx),
                },
            )
        }),
    ensures
        post.wf(),
        post@ == map_upsert(pre@, key, value),
        !pre@.dom().contains(key),
{
    let nb = pre.slots@.len() as int;
    let entries = pre.bucket_entries(b);
    assert(pre.bucket_wf(b));
    lemma_insert_grow_bucket(pre, post, key, value, b, idx);
    assert forall|b0: int|
        #![trigger post.bucket_wf(b0)]
        #![trigger post.bucket_entries(b0)]
        0 <= b0 < nb && b0 != b implies post.bucket_entries(b0) == pre.bucket_entries(b0)
        && post.bucket_wf(b0) by {
        assert forall|q: int|
            0 <= q < pre.chains@[b0].len() implies post.nodes@[(
        #[trigger] pre.chains@[b0][q]) as int] == pre.nodes@[pre.chains@[b0][q] as int] by {
            assert(pre.bucket_wf(b0));
            if pre.slots@[b] is Some && pre.chains@[b].len() > 0 {
                assert(pre.chains@[b0][q] != pre.chains@[b][pre.chains@[b].len() - 1]);
                assert(pre.chains@[b0][q] < pre.nodes@.len());
            }
        }
        lemma_bucket_frame(pre, post, b0);
    }
    lemma_entries_below_change(pre, post, b, nb);
    assert(post.size == post.entries_below(nb));
    lemma_assemble_wf(pre, post, b);
    lemma_view_upsert_append(pre, post, key, value);
}

/// The bucket-local effect of the growth in [`lemma_insert_grow_post`]:
/// bucket `b` gains exactly the `key`/`value` entry at its end and stays
/// consistent.
#[verifier::rlimit(100)]
proof fn lemma_insert_grow_bucket<K: StoreKey, V>(
    pre: HashMap<K, V>,
    post: HashMap<K, V>,
    key: K,
    value: V,
    b: int,
    idx: usize,
)
    requires
        pre.wf(),
        0 <= b < pre.slots@.len(),
        b == pre.bucket_of(key),
        !seq_has_key(pre.bucket_entries(b), key),
        post.slots@.len() == pre.slots@.len(),
        pre.slots@[b] is Some ==> idx == pre.nodes@.len(),
        pre.slots@[b] is None ==> post.nodes@ == pre.nodes@ && post.chains@ == pre.chains@
            && post.slots@ == pre.slots@.update(
            b,
            Some(Bucket { key: key, value: value, next: None }),
        ),
        pre.slots@[b] is Some ==> post.chains@ == pre.chains@.update(
            b,
            pre.chains@[b].push(idx),
        ) && (if pre.chains@[b].len() == 0 {
            post.nodes@ == pre.nodes@.push(Bucket { key: key, value: value, next: None })
                && post.slots@ == pre.slots@.update(
                b,
                Some(
                    Bucket {
                        key: pre.slots@[b]->Some_0.key,
                        value: pre.slots@[b]->Some_0.value,
                        next: Some(idx),
                    },
                ),
            )
        } else {
            post.slots@ == pre.slots@ && post.nodes@ == pre.nodes@.push(
                Bucket { key: key, value: value, next: None },
            ).update(
                pre.chains@[b][pre.chains@[b].len() - 1] as int,
                Bucket {
                    key: pre.nodes@[pre.chains@[b][pre.chains@[b].len() - 1] as int].key,
                    value: pre.nodes@[pre.chains@[b][pre.chains@[b].len() - 1] as int].value,
                    next: Some(idx),
                },
            )
        }),
    ensures
        post.bucket_entries(b) == pre.bucket_entries(b).push((key, value)),
        post.bucket_wf(b),
{
    assert(pre.bucket_wf(b));
    assert(post.bucket_entries(b) =~= pre.bucket_entries(b).push((key, value)));
    assert(post.bucket_wf(b));
}

} // verus!
