//! Mapping keys to bucket indexes.
//!
//! A key is hashed with the standard library's `DefaultHasher` and the digest
//! is reduced modulo the table size. The digest is a pure function of the
//! bytes written to the hasher, so equal keys always land in the same bucket.

use std::collections::hash_map::DefaultHasher;
use std::hash::Hasher;
use vstd::prelude::*;
use vstd::std_specs::hash::DefaultHasherAdditionalSpecFns;
use vstd::utf8::encode_utf8;

verus! {

/// Number of bucket slots in a hash table.
pub const DEFAULT_MAX_SIZE: usize = 256;

/// A key that can be fed to the standard `DefaultHasher` and compared by
/// abstract value.
pub trait HashableKey: View + Sized {
    /// The byte slices that `feed_hasher` writes, as a function of the key's
    /// abstract value alone. Keys with equal abstract values therefore hash
    /// alike.
    spec fn hash_writes(v: Self::V) -> Seq<Seq<u8>>;

    /// Write the key's bytes into the hasher.
    fn feed_hasher(&self, hasher: &mut DefaultHasher)
        ensures
            final(hasher)@ == old(hasher)@ + Self::hash_writes(self@),
    ;

    /// Equality of abstract values.
    fn key_eq(&self, other: &Self) -> (r: bool)
        ensures
            r == (self@ == other@),
    ;

    /// A copy with the same abstract value.
    fn clone_key(&self) -> (r: Self)
        ensures
            r@ == self@,
    ;
}

/// The bucket index reached by a sequence of hasher writes: the 64-bit digest
/// reduced modulo the table size.
pub open spec fn index_for_writes(writes: Seq<Seq<u8>>) -> usize {
    (DefaultHasher::spec_finish(writes) % (DEFAULT_MAX_SIZE as u64)) as usize
}

/// The bucket index of a key with abstract value `v`.
pub open spec fn bucket_index_of<K: HashableKey>(v: K::V) -> int {
    index_for_writes(K::hash_writes(v)) as int
}

/// Maps a key to a bucket index in `[0, DEFAULT_MAX_SIZE)`.
///
/// The index is computed as `hash(key) % DEFAULT_MAX_SIZE` with the standard
/// library's general-purpose hasher; the same key value always yields the
/// same index. No error conditions, no side effects.
pub trait KeyToIndexHasherTrait<K: HashableKey> {
    fn get_index(&self, key: K) -> (index: usize)
        ensures
            index == index_for_writes(K::hash_writes(key@)),
            index < DEFAULT_MAX_SIZE,
    {
        let mut hasher = DefaultHasher::new();
        key.feed_hasher(&mut hasher);
        let key_hash = hasher.finish();
        (key_hash % (DEFAULT_MAX_SIZE as u64)) as usize
    }
}

/// The bytes that hashing a string writes: its UTF-8 encoding followed by a
/// single `0xff` terminator, as the standard library hashes string slices.
pub open spec fn string_hash_writes(v: Seq<char>) -> Seq<Seq<u8>> {
    seq![encode_utf8(v), seq![0xffu8]]
}

impl HashableKey for String {
    open spec fn hash_writes(v: Seq<char>) -> Seq<Seq<u8>> {
        string_hash_writes(v)
    }

    fn feed_hasher(&self, hasher: &mut DefaultHasher) {
        hasher.write(self.as_str().as_bytes());
        let terminator: [u8; 1] = [0xffu8];
        hasher.write(terminator.as_slice());
        proof {
            assert(hasher@ =~~= old(hasher)@ + Self::hash_writes(self@));
        }
    }

    fn key_eq(&self, other: &Self) -> (r: bool) {
        *self == *other
    }

    fn clone_key(&self) -> (r: Self) {
        self.clone()
    }
}

impl<'a> HashableKey for &'a str {
    open spec fn hash_writes(v: Seq<char>) -> Seq<Seq<u8>> {
        string_hash_writes(v)
    }

    fn feed_hasher(&self, hasher: &mut DefaultHasher) {
        hasher.write(self.as_bytes());
        let terminator: [u8; 1] = [0xffu8];
        hasher.write(terminator.as_slice());
        proof {
            assert(hasher@ =~~= old(hasher)@ + Self::hash_writes(self@));
        }
    }

    fn key_eq(&self, other: &Self) -> (r: bool) {
        let left: String = (*self).to_owned();
        let right: String = (*other).to_owned();
        left == right
    }

    fn clone_key(&self) -> (r: Self) {
        *self
    }
}

/// The four bytes of a 32-bit value, least significant first, as the standard
/// library feeds a 32-bit integer to a hasher on a little-endian machine.
pub open spec fn le_bytes_of_u32(x: u32) -> Seq<u8> {
    seq![
        (x % 256) as u8,
        ((x / 256) % 256) as u8,
        ((x / 65536) % 256) as u8,
        ((x / 16777216) % 256) as u8,
    ]
}

impl HashableKey for i32 {
    open spec fn hash_writes(v: i32) -> Seq<Seq<u8>> {
        seq![le_bytes_of_u32(v as u32)]
    }

    fn feed_hasher(&self, hasher: &mut DefaultHasher) {
        let x: u32 = *self as u32;
        let bytes: [u8; 4] = [
            (x % 256) as u8,
            ((x / 256) % 256) as u8,
            ((x / 65536) % 256) as u8,
            ((x / 16777216) % 256) as u8,
        ];
        hasher.write(bytes.as_slice());
        proof {
            assert(hasher@ =~~= old(hasher)@ + Self::hash_writes(self@));
        }
    }

    fn key_eq(&self, other: &Self) -> (r: bool) {
        *self == *other
    }

    fn clone_key(&self) -> (r: Self) {
        *self
    }
}

} // verus!
