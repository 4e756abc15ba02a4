//! Hash primitives and the per-component hashers built on them.
use vstd::prelude::*;
use crate::bytes::{copy_bytes, extend_bytes};

verus! {

/// What `sp_io::hashing::twox_128` returns for the given bytes.
pub uninterp spec fn twox_128_of(data: Seq<u8>) -> [u8; 16];

/// What `sp_io::hashing::twox_64` returns for the given bytes.
pub uninterp spec fn twox_64_of(data: Seq<u8>) -> [u8; 8];

/// What `sp_io::hashing::blake2_128` returns for the given bytes.
pub uninterp spec fn blake2_128_of(data: Seq<u8>) -> [u8; 16];

/// Relies on `sp_io::hashing::twox_128`: a 16-byte digest that depends on the bytes alone.
#[verifier::external_body]
pub(crate) fn twox_128(data: &[u8]) -> (r: [u8; 16])
    ensures
        r == twox_128_of(data@),
{
    sp_io::hashing::twox_128(data)
}

/// Relies on `sp_io::hashing::twox_64`: an 8-byte digest that depends on the bytes alone.
#[verifier::external_body]
pub(crate) fn twox_64(data: &[u8]) -> (r: [u8; 8])
    ensures
        r == twox_64_of(data@),
{
    sp_io::hashing::twox_64(data)
}

/// Relies on `sp_io::hashing::blake2_128`: a 16-byte digest that depends on the bytes alone.
#[verifier::external_body]
pub(crate) fn blake2_128(data: &[u8]) -> (r: [u8; 16])
    ensures
        r == blake2_128_of(data@),
{
    sp_io::hashing::blake2_128(data)
}

/// How one key component is turned into bytes of the final key.
#[derive(Clone, Copy, Debug, PartialEq, Eq, Structural)]
pub enum Hasher {
    /// The encoded component itself.
    Identity,
    /// `twox_64(c) ++ c`.
    Twox64Concat,
    /// `blake2_128(c) ++ c`.
    Blake2_128Concat,
    /// `twox_128(c)`; one-way.
    Twox128,
    /// `blake2_128(c)`; one-way.
    Blake2_128,
}

/// The bytes that `h` makes of the encoded component `c`.
pub open spec fn hash_spec(h: Hasher, c: Seq<u8>) -> Seq<u8> {
    match h {
        Hasher::Identity => c,
        Hasher::Twox64Concat => twox_64_of(c)@ + c,
        Hasher::Blake2_128Concat => blake2_128_of(c)@ + c,
        Hasher::Twox128 => twox_128_of(c)@,
        Hasher::Blake2_128 => blake2_128_of(c)@,
    }
}

/// Whether the component can be read back from what `h` makes of it.
pub open spec fn is_reversible_spec(h: Hasher) -> bool {
    match h {
        Hasher::Identity | Hasher::Twox64Concat | Hasher::Blake2_128Concat => true,
        _ => false,
    }
}

/// How many bytes a reversible hasher puts in front of the component.
pub open spec fn hash_prefix_len(h: Hasher) -> nat {
    match h {
        Hasher::Twox64Concat => 8,
        Hasher::Blake2_128Concat => 16,
        _ => 0,
    }
}

impl Hasher {
    pub fn is_reversible(&self) -> (r: bool)
        ensures
            r == is_reversible_spec(*self),
    {
        match self {
            Hasher::Identity | Hasher::Twox64Concat | Hasher::Blake2_128Concat => true,
            _ => false,
        }
    }

    /// Hashes the encoded component `c`.
    pub fn hash(&self, c: &[u8]) -> (r: Vec<u8>)
        ensures
            r@ == hash_spec(*self, c@),
    {
        match self {
            Hasher::Identity => copy_bytes(c),
            Hasher::Twox64Concat => {
                let d = twox_64(c);
                let mut r = copy_bytes(&d);
                extend_bytes(&mut r, c);
                r
            },
            Hasher::Blake2_128Concat => {
                let d = blake2_128(c);
                let mut r = copy_bytes(&d);
                extend_bytes(&mut r, c);
                r
            },
            Hasher::Twox128 => {
                let d = twox_128(c);
                copy_bytes(&d)
            },
            Hasher::Blake2_128 => {
                let d = blake2_128(c);
                copy_bytes(&d)
            },
        }
    }
}

} // verus!
