//! Hashable keys for the keyed collections.
//!
//! The collections hash keys with `fxhash`'s 64-bit digest. What matters to
//! their contracts is only that the digest is a pure function of the key, so
//! each supported key type names its digest as an abstract function and a
//! trusted wrapper ties the real call to that name.

use vstd::prelude::*;
use vstd::string::StringSliceAdditionalSpecFns;
use vstd::utf8::encode_utf8_decode_utf8;

verus! {

/// What `fxhash::hash64` digests an `i32` key to.
pub uninterp spec fn fx_hash_of_i32(key: i32) -> u64;

/// What `fxhash::hash64` digests an `i64` key to.
pub uninterp spec fn fx_hash_of_i64(key: i64) -> u64;

/// What `fxhash::hash64` digests a `u64` key to.
pub uninterp spec fn fx_hash_of_u64(key: u64) -> u64;

/// What `fxhash::hash64` digests a `usize` key to.
pub uninterp spec fn fx_hash_of_usize(key: usize) -> u64;

/// What `fxhash::hash64` digests a string key to, as a function of its
/// characters.
pub uninterp spec fn fx_hash_of_str(key: Seq<char>) -> u64;

/// Relies on fxhash::hash64, which folds the key's bytes with fixed
/// multiply-rotate rounds: the digest of an `i32` depends on the key alone.
#[verifier::external_body]
fn fx_hash_i32(key: &i32) -> (r: u64)
    ensures
        r == fx_hash_of_i32(*key),
{
    fxhash::hash64(key)
}

/// Relies on fxhash::hash64: the digest of an `i64` depends on the key
/// alone.
#[verifier::external_body]
fn fx_hash_i64(key: &i64) -> (r: u64)
    ensures
        r == fx_hash_of_i64(*key),
{
    fxhash::hash64(key)
}

/// Relies on fxhash::hash64: the digest of a `u64` depends on the key
/// alone.
#[verifier::external_body]
fn fx_hash_u64(key: &u64) -> (r: u64)
    ensures
        r == fx_hash_of_u64(*key),
{
    fxhash::hash64(key)
}

/// Relies on fxhash::hash64: the digest of a `usize` depends on the key
/// alone.
#[verifier::external_body]
fn fx_hash_usize(key: &usize) -> (r: u64)
    ensures
        r == fx_hash_of_usize(*key),
{
    fxhash::hash64(key)
}

/// Relies on fxhash::hash64, which hashes a `str` through its bytes: the
/// digest depends on the characters alone.
#[verifier::external_body]
fn fx_hash_str(key: &str) -> (r: u64)
    ensures
        r == fx_hash_of_str(key@),
{
    fxhash::hash64(key)
}

/// A key the keyed collections can hash and compare.
///
/// `same_key` is the lookup equivalence: an equivalence relation on which
/// the hash agrees, so equivalent keys always land in the same bucket.
pub trait StoreKey: Sized + Copy {
    /// The key's 64-bit digest, as contracts speak of it.
    spec fn spec_hash(self) -> u64;

    /// Whether two keys are the same for lookup purposes.
    spec fn same_key(self, other: Self) -> bool;

    /// `same_key` is reflexive, symmetric and transitive, and equivalent
    /// keys hash alike.
    proof fn lemma_same_key(self, a: Self, b: Self)
        ensures
            self.same_key(self),
            self.same_key(a) ==> a.same_key(self),
            self.same_key(a) && a.same_key(b) ==> self.same_key(b),
            self.same_key(a) ==> self.spec_hash() == a.spec_hash(),
    ;

    /// The digest, computed.
    fn key_hash(&self) -> (r: u64)
        ensures
            r == self.spec_hash(),
    ;

    /// The lookup equivalence, computed.
    fn key_eq(&self, other: &Self) -> (r: bool)
        ensures
            r == self.same_key(*other),
    ;
}

impl StoreKey for i32 {
    open spec fn spec_hash(self) -> u64 {
        fx_hash_of_i32(self)
    }

    open spec fn same_key(self, other: Self) -> bool {
        self == other
    }

    proof fn lemma_same_key(self, a: Self, b: Self) {
    }

    fn key_hash(&self) -> (r: u64) {
        fx_hash_i32(self)
    }

    fn key_eq(&self, other: &Self) -> (r: bool) {
        *self == *other
    }
}

impl StoreKey for i64 {
    open spec fn spec_hash(self) -> u64 {
        fx_hash_of_i64(self)
    }

    open spec fn same_key(self, other: Self) -> bool {
        self == other
    }

    proof fn lemma_same_key(self, a: Self, b: Self) {
    }

    fn key_hash(&self) -> (r: u64) {
        fx_hash_i64(self)
    }

    fn key_eq(&self, other: &Self) -> (r: bool) {
        *self == *other
    }
}

impl StoreKey for u64 {
    open spec fn spec_hash(self) -> u64 {
        fx_hash_of_u64(self)
    }

    open spec fn same_key(self, other: Self) -> bool {
        self == other
    }

    proof fn lemma_same_key(self, a: Self, b: Self) {
    }

    fn key_hash(&self) -> (r: u64) {
        fx_hash_u64(self)
    }

    fn key_eq(&self, other: &Self) -> (r: bool) {
        *self == *other
    }
}

impl StoreKey for usize {
    open spec fn spec_hash(self) -> u64 {
        fx_hash_of_usize(self)
    }

    open spec fn same_key(self, other: Self) -> bool {
        self == other
    }

    proof fn lemma_same_key(self, a: Self, b: Self) {
    }

    fn key_hash(&self) -> (r: u64) {
        fx_hash_usize(self)
    }

    fn key_eq(&self, other: &Self) -> (r: bool) {
        *self == *other
    }
}

impl<'s> StoreKey for &'s str {
    open spec fn spec_hash(self) -> u64 {
        fx_hash_of_str(self@)
    }

    open spec fn same_key(self, other: Self) -> bool {
        self@ == other@
    }

    proof fn lemma_same_key(self, a: Self, b: Self) {
    }

    fn key_hash(&self) -> (r: u64) {
        fx_hash_str(self)
    }

    fn key_eq(&self, other: &Self) -> (r: bool) {
        str_content_eq(*self, *other)
    }
}

/// Whether two strings hold the same characters, decided byte by byte.
fn str_content_eq(a: &str, b: &str) -> (r: bool)
    ensures
        r == (a@ == b@),
{
    let abytes = a.as_bytes();
    let bbytes = b.as_bytes();
    proof {
        encode_utf8_decode_utf8(a@);
        encode_utf8_decode_utf8(b@);
    }
    if abytes.len() != bbytes.len() {
        return false;
    }
    let n = abytes.len();
    let mut i: usize = 0;
    while i < n
        invariant
            0 <= i <= n,
            abytes@ == a.spec_bytes(),
            bbytes@ == b.spec_bytes(),
            abytes@.len() == n,
            bbytes@.len() == n,
            forall|j: int| 0 <= j < i ==> abytes@[j] == bbytes@[j],
        decreases n - i,
    {
        if abytes[i] != bbytes[i] {
            return false;
        }
        i = i + 1;
    }
    proof {
        assert(a.spec_bytes() =~= b.spec_bytes());
        encode_utf8_decode_utf8(a@);
        encode_utf8_decode_utf8(b@);
        assert(a@ == b@);
    }
    true
}

/// A key is equivalent to itself.
pub proof fn lemma_key_refl<K: StoreKey>(a: K)
    ensures
        a.same_key(a),
{
    a.lemma_same_key(a, a);
}

/// Key equivalence is symmetric.
pub proof fn lemma_key_sym<K: StoreKey>(a: K, b: K)
    requires
        a.same_key(b),
    ensures
        b.same_key(a),
{
    a.lemma_same_key(b, b);
}

/// Key equivalence is transitive.
pub proof fn lemma_key_trans<K: StoreKey>(a: K, b: K, c: K)
    requires
        a.same_key(b),
        b.same_key(c),
    ensures
        a.same_key(c),
{
    a.lemma_same_key(b, c);
}

/// Equivalent keys hash alike.
pub proof fn lemma_key_hash<K: StoreKey>(a: K, b: K)
    requires
        a.same_key(b),
    ensures
        a.spec_hash() == b.spec_hash(),
{
    a.lemma_same_key(b, b);
}

/// Whether some entry of `entries` holds a key equivalent to `key`.
pub open spec fn seq_has_key<K: StoreKey, V>(entries: Seq<(K, V)>, key: K) -> bool {
    exists|i: int| 0 <= i < entries.len() && #[trigger] entries[i].0.same_key(key)
}

/// The position of the entry holding a key equivalent to `key`; meaningful
/// only where `seq_has_key` holds and keys are pairwise distinct.
pub open spec fn seq_key_at<K: StoreKey, V>(entries: Seq<(K, V)>, key: K) -> int {
    choose|i: int| 0 <= i < entries.len() && #[trigger] entries[i].0.same_key(key)
}

/// Whether the entries of `entries` hold pairwise distinct keys.
pub open spec fn distinct_keys<K: StoreKey, V>(entries: Seq<(K, V)>) -> bool {
    forall|i: int, j: int|
        0 <= i < j < entries.len() ==> !(#[trigger] entries[i].0.same_key(entries[j].0))
}

/// In an entry sequence with pairwise distinct keys, the position found by
/// `seq_key_at` is the one position whose key is equivalent to `key`.
pub proof fn lemma_key_at_unique<K: StoreKey, V>(entries: Seq<(K, V)>, key: K, i: int)
    requires
        distinct_keys(entries),
        0 <= i < entries.len(),
        entries[i].0.same_key(key),
    ensures
        seq_has_key(entries, key),
        seq_key_at(entries, key) == i,
{
    assert(seq_has_key(entries, key));
    let j = seq_key_at(entries, key);
    assert(0 <= j < entries.len() && entries[j].0.same_key(key));
    if j != i {
        entries[j].0.lemma_same_key(key, key);
        entries[i].0.lemma_same_key(key, entries[j].0);
        assert(entries[i].0.same_key(entries[j].0));
        entries[i].0.lemma_same_key(entries[j].0, entries[j].0);
        assert(entries[j].0.same_key(entries[i].0));
        assert(false);
    }
}

} // verus!
