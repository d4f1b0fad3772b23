//! Key and value requirements, and the pluggable hash provider.
//!
//! The map compares keys by their abstract views, so a key type states in
//! `MapKey` that its executable equality decides view equality.  A hash
//! provider turns a key into a 64-bit hash; it is deterministic per provider
//! value, which `hash` states by referring to the provider's own `hash_spec`.

use std::collections::hash_map::DefaultHasher;
use std::hash::Hasher;
use vstd::prelude::*;
use vstd::std_specs::hash::DefaultHasherAdditionalSpecFns;

verus! {

/// A key of the map: equality of key values is decided by executable code
/// and coincides with equality of their views.
pub trait MapKey: View + Sized {
    /// Decides whether two keys are the same key.
    fn key_eq(&self, other: &Self) -> (r: bool)
        ensures
            r == (self@ == other@),
    ;

    /// Produces a key with the same view, used when handing keys out.
    fn key_dup(&self) -> (r: Self)
        ensures
            r@ == self@,
    ;
}

impl MapKey for u64 {
    fn key_eq(&self, other: &Self) -> (r: bool) {
        *self == *other
    }

    fn key_dup(&self) -> (r: Self) {
        *self
    }
}

impl MapKey for u32 {
    fn key_eq(&self, other: &Self) -> (r: bool) {
        *self == *other
    }

    fn key_dup(&self) -> (r: Self) {
        *self
    }
}

impl MapKey for usize {
    fn key_eq(&self, other: &Self) -> (r: bool) {
        *self == *other
    }

    fn key_dup(&self) -> (r: Self) {
        *self
    }
}

impl MapKey for String {
    fn key_eq(&self, other: &Self) -> (r: bool) {
        self.eq(other)
    }

    fn key_dup(&self) -> (r: Self) {
        self.clone()
    }
}

/// A value type whose executable equality decides equality of values, used
/// only when whole maps are compared.
pub trait MapValue: Sized {
    /// Decides whether two values are the same value.
    fn val_eq(&self, other: &Self) -> (r: bool)
        ensures
            r == (*self == *other),
    ;
}

impl MapValue for u64 {
    fn val_eq(&self, other: &Self) -> (r: bool) {
        *self == *other
    }
}

impl MapValue for u32 {
    fn val_eq(&self, other: &Self) -> (r: bool) {
        *self == *other
    }
}

impl MapValue for i64 {
    fn val_eq(&self, other: &Self) -> (r: bool) {
        *self == *other
    }
}

impl MapValue for bool {
    fn val_eq(&self, other: &Self) -> (r: bool) {
        *self == *other
    }
}

/// A hash provider: a deterministic function from key views to 64-bit
/// hashes, fixed by the provider value itself.
pub trait HashProvider<K: MapKey>: Sized {
    /// The mathematical hash function of this provider value.
    spec fn hash_spec(&self, k: K::V) -> u64;

    /// Hashes a key.
    fn hash(&self, key: &K) -> (h: u64)
        ensures
            h == self.hash_spec(key@),
    ;

    /// Produces a provider with the same hash function, used when a map
    /// handle is cloned.
    fn duplicate(&self) -> (r: Self)
        ensures
            r == *self,
    ;
}

/// The default hash provider.  Strings go through the standard library's
/// `DefaultHasher`; fixed-width integers are mixed with shifts and xors.
pub struct DefaultHashProvider;

impl HashProvider<String> for DefaultHashProvider {
    closed spec fn hash_spec(&self, k: Seq<char>) -> u64 {
        DefaultHasher::spec_finish(seq![vstd::utf8::encode_utf8(k)])
    }

    fn hash(&self, key: &String) -> (h: u64) {
        let mut hasher = DefaultHasher::new();
        hasher.write(key.as_str().as_bytes());
        hasher.finish()
    }

    fn duplicate(&self) -> (r: Self) {
        DefaultHashProvider
    }
}

impl HashProvider<u64> for DefaultHashProvider {
    closed spec fn hash_spec(&self, k: u64) -> u64 {
        k ^ (k << 25) ^ (k >> 31)
    }

    fn hash(&self, key: &u64) -> (h: u64) {
        let k: u64 = *key;
        k ^ (k << 25) ^ (k >> 31)
    }

    fn duplicate(&self) -> (r: Self) {
        DefaultHashProvider
    }
}

impl HashProvider<u32> for DefaultHashProvider {
    closed spec fn hash_spec(&self, k: u32) -> u64 {
        (k as u64) ^ ((k as u64) << 17)
    }

    fn hash(&self, key: &u32) -> (h: u64) {
        let k: u64 = *key as u64;
        k ^ (k << 17)
    }

    fn duplicate(&self) -> (r: Self) {
        DefaultHashProvider
    }
}

/// A provider that keeps only the bits of `mask` from a `u64` key.  With a
/// small mask, distinct keys are driven to the same hash, which exercises
/// the collision handling of the map.
pub struct MaskHashProvider {
    pub mask: u64,
}

impl HashProvider<u64> for MaskHashProvider {
    closed spec fn hash_spec(&self, k: u64) -> u64 {
        k & self.mask
    }

    fn hash(&self, key: &u64) -> (h: u64) {
        *key & self.mask
    }

    fn duplicate(&self) -> (r: Self) {
        MaskHashProvider { mask: self.mask }
    }
}

/// Hashes a value with the given provider.
pub fn hash<K: MapKey, H: HashProvider<K>>(v: &K, hasher_builder: &H) -> (h: u64)
    ensures
        h == hasher_builder.hash_spec(v@),
{
    hasher_builder.hash(v)
}

} // verus!
