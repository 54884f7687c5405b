//! The hash strategy and key equality.
//!
//! The hash function is the one injected dependency of the container: any
//! type implementing [`KeyHasher`] can be supplied when a base is built, so a
//! deterministic hasher can be substituted for a randomized one.  The default
//! strategy, [`RandomHasher`], is keyed randomly per base to resist
//! adversarial collisions.

use core::hash::Hash;

use vstd::prelude::*;

verus! {

/// A hash strategy for keys of type `K`.
///
/// `hash_spec` is the mathematical function this particular hasher instance
/// computes; the executable `hash` must agree with it, which is exactly the
/// promise that equal keys hash equally for the life of the instance.
pub trait KeyHasher<K>: Sized {
    spec fn hash_spec(&self, key: K) -> u64;

    fn hash(&self, key: &K) -> (h: u64)
        ensures
            h == self.hash_spec(*key),
    ;
}

/// Key equality that agrees with mathematical equality, so that verified
/// callers can reason about which entry a lookup returns.
pub trait KeyEq: Sized {
    fn eq_key(&self, other: &Self) -> (r: bool)
        ensures
            r == (*self == *other),
    ;
}

impl KeyEq for u8 {
    fn eq_key(&self, other: &Self) -> (r: bool)
        ensures
            r == (*self == *other),
    {
        *self == *other
    }
}

impl KeyEq for u16 {
    fn eq_key(&self, other: &Self) -> (r: bool)
        ensures
            r == (*self == *other),
    {
        *self == *other
    }
}

impl KeyEq for u32 {
    fn eq_key(&self, other: &Self) -> (r: bool)
        ensures
            r == (*self == *other),
    {
        *self == *other
    }
}

impl KeyEq for u64 {
    fn eq_key(&self, other: &Self) -> (r: bool)
        ensures
            r == (*self == *other),
    {
        *self == *other
    }
}

impl KeyEq for usize {
    fn eq_key(&self, other: &Self) -> (r: bool)
        ensures
            r == (*self == *other),
    {
        *self == *other
    }
}

impl KeyEq for i32 {
    fn eq_key(&self, other: &Self) -> (r: bool)
        ensures
            r == (*self == *other),
    {
        *self == *other
    }
}

impl KeyEq for i64 {
    fn eq_key(&self, other: &Self) -> (r: bool)
        ensures
            r == (*self == *other),
    {
        *self == *other
    }
}

impl KeyEq for char {
    fn eq_key(&self, other: &Self) -> (r: bool)
        ensures
            r == (*self == *other),
    {
        *self == *other
    }
}

impl KeyEq for bool {
    fn eq_key(&self, other: &Self) -> (r: bool)
        ensures
            r == (*self == *other),
    {
        *self == *other
    }
}

/// A deterministic hasher for `u64` keys: the hash is the key itself.
/// Useful where reproducible trie shapes are wanted.
pub struct U64Hasher;

impl KeyHasher<u64> for U64Hasher {
    open spec fn hash_spec(&self, key: u64) -> u64 {
        key
    }

    fn hash(&self, key: &u64) -> (h: u64)
        ensures
            h == self.hash_spec(*key),
    {
        *key
    }
}

/// A deliberately colliding hasher for `u64` keys: only the bits selected by
/// `mask` survive, so many distinct keys share a hash.  Lets collision-chain
/// handling be exercised on a small hash space.
pub struct MaskedHasher {
    pub mask: u64,
}

impl KeyHasher<u64> for MaskedHasher {
    open spec fn hash_spec(&self, key: u64) -> u64 {
        key & self.mask
    }

    fn hash(&self, key: &u64) -> (h: u64)
        ensures
            h == self.hash_spec(*key),
    {
        *key & self.mask
    }
}

/// ahash's keyed hasher state, used opaquely as the default hash strategy.
#[verifier::external_type_specification]
#[verifier::external_body]
pub struct ExRandomState(ahash::RandomState);

/// The default hash strategy: ahash, keyed randomly per instance.
///
/// The ghost `model` field names the mathematical hash function that this
/// particular instance computes; nothing is known about it beyond the fact
/// that the executable `hash` agrees with it.
#[verifier::reject_recursive_types(K)]
pub struct RandomHasher<K> {
    state: ahash::RandomState,
    model: Ghost<spec_fn(K) -> u64>,
}

impl<K: Hash> RandomHasher<K> {
    /// A freshly keyed hasher computing some unknown hash function.  Relies
    /// on ahash::RandomState::new for the keyed state.  Nothing is promised
    /// of the result: two hashers built here are not related, and each call
    /// leaves the ghost model unconstrained.
    #[verifier::external_body]
    pub fn new() -> (h: Self) {
        RandomHasher { state: ahash::RandomState::new(), model: Ghost(arbitrary()) }
    }

    /// Relies on ahash::RandomState::hash_one, which computes the digest
    /// from the state's fixed keys and the data the key's Hash
    /// implementation writes — hashers built from one state produce the
    /// same digest for the same data — and on the std Hash contract, which
    /// requires a key to feed the hasher the same data on every call.
    /// Together they make the digest a function of the state and the key
    /// value alone: the function the ghost `model` field names.
    #[verifier::external_body]
    fn hash_keyed(&self, key: &K) -> (h: u64)
        ensures
            h == (self.model@)(*key),
    {
        self.state.hash_one(key)
    }
}

impl<K: Hash> KeyHasher<K> for RandomHasher<K> {
    closed spec fn hash_spec(&self, key: K) -> u64 {
        (self.model@)(key)
    }

    fn hash(&self, key: &K) -> (h: u64)
        ensures
            h == self.hash_spec(*key),
    {
        self.hash_keyed(key)
    }
}

} // verus!
