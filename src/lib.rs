//! Composite-key hashed maps over a flat, ordered, byte-keyed store.
//!
//! Each entry of a map lives at
//! `twox_128(module_prefix) ++ twox_128(storage_prefix) ++ H1(k1) ++ ... ++ Hn(kn)`,
//! where `Hi` is the hasher chosen for the i-th key component and `ki` its encoding.
//! Key components are fixed-length encodings; values are `u64`s in their 8-byte
//! little-endian form.
//!
//! If the keys are not trusted (e.g. can be set by a user), a cryptographic hasher
//! such as `Blake2_128Concat` must be used. Otherwise, other values in the store
//! under the same prefix can be compromised.

pub mod bytes;
pub mod codec;
pub mod hashing;
pub mod keys;
pub mod laws;
pub mod map;
pub mod store;
