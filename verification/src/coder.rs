//! Byte encoding of routed messages.
//!
//! Distributed executors move `(key, message)` pairs between processes as
//! opaque byte buffers. A [`Coder`] performs that translation; its contract
//! demands that decoding inverts encoding, so a pair handed to a peer is
//! reconstructed exactly.

use vstd::prelude::*;

verus! {

/// An object that can encode a particular type to, and decode it from, a
/// `Vec<u8>`.
///
/// `codes()` tells whether this coder may be used at all: the executors
/// that never serialize anything carry a [`NullCoder`], which refuses both
/// operations. The round-trip obligation `decode(encode(x)) == x` is part
/// of the trait, so every usable implementation must prove it.
pub trait Coder: Sized {
    type Type;

    /// Whether `encode` and `decode` may be called on this coder.
    spec fn codes(&self) -> bool;

    /// The bytes that `encode` produces for `inst`.
    spec fn spec_encode(&self, inst: Self::Type) -> Seq<u8>;

    /// The value that `decode` reconstructs from `data`.
    spec fn spec_decode(&self, data: Seq<u8>) -> Self::Type;

    /// Consume an instance of the encodable type and convert it to bytes.
    fn encode(&self, inst: Self::Type) -> (r: Vec<u8>)
        requires
            self.codes(),
        ensures
            r@ == self.spec_encode(inst),
    ;

    /// Consume a buffer of bytes and decode it to the decodable type.
    fn decode(&self, data: Vec<u8>) -> (r: Self::Type)
        requires
            self.codes(),
        ensures
            r == self.spec_decode(data@),
    ;

    /// Decoding inverts encoding for every value the coder accepts.
    proof fn round_trip(&self, inst: Self::Type)
        requires
            self.codes(),
        ensures
            self.spec_decode(self.spec_encode(inst)) == inst,
    ;
}

/// Shim implementation of `Coder` for executors whose generic signature
/// demands one but which never serialize. Calling `encode` or `decode` is a
/// programmer error, which its contract rules out: `codes()` is false.
pub struct NullCoder<T> {
    phantom: core::marker::PhantomData<T>,
}

impl<T> NullCoder<T> {
    pub fn new() -> (r: Self)
        ensures
            !r.codes(),
    {
        Self { phantom: core::marker::PhantomData }
    }
}

impl<T> Coder for NullCoder<T> {
    type Type = T;

    open spec fn codes(&self) -> bool {
        false
    }

    open spec fn spec_encode(&self, inst: T) -> Seq<u8> {
        Seq::empty()
    }

    open spec fn spec_decode(&self, data: Seq<u8>) -> T {
        arbitrary()
    }

    fn encode(&self, inst: T) -> (r: Vec<u8>) {
        vstd::pervasive::unreached()
    }

    fn decode(&self, data: Vec<u8>) -> (r: T) {
        vstd::pervasive::unreached()
    }

    proof fn round_trip(&self, inst: T) {
    }
}

/// A coder for `(u64, u64)` pairs: each pair becomes its two fields in
/// little-endian order, sixteen bytes in all. It both grounds the `Coder`
/// contract with a verified round trip and serves groups whose keys and
/// messages are plain integers.
pub struct PairCoder {}

/// The sixteen-byte little-endian image of a `(u64, u64)` pair.
pub open spec fn pair_bytes(inst: (u64, u64)) -> Seq<u8> {
    vstd::bytes::spec_u64_to_le_bytes(inst.0) + vstd::bytes::spec_u64_to_le_bytes(inst.1)
}

/// The pair read back from the first sixteen bytes of `data`; short or
/// overlong buffers give the fields that the available bytes determine,
/// with missing bytes read as zero.
pub open spec fn pair_of_bytes(data: Seq<u8>) -> (u64, u64) {
    let padded = data + Seq::new(16, |i: int| 0u8);
    (
        vstd::bytes::spec_u64_from_le_bytes(padded.subrange(0, 8)),
        vstd::bytes::spec_u64_from_le_bytes(padded.subrange(8, 16)),
    )
}

impl PairCoder {
    pub fn new() -> (r: Self)
        ensures
            r.codes(),
    {
        Self {}
    }
}

impl Coder for PairCoder {
    type Type = (u64, u64);

    open spec fn codes(&self) -> bool {
        true
    }

    open spec fn spec_encode(&self, inst: (u64, u64)) -> Seq<u8> {
        pair_bytes(inst)
    }

    open spec fn spec_decode(&self, data: Seq<u8>) -> (u64, u64) {
        pair_of_bytes(data)
    }

    fn encode(&self, inst: (u64, u64)) -> (r: Vec<u8>) {
        let mut r = vstd::bytes::u64_to_le_bytes(inst.0);
        let mut hi = vstd::bytes::u64_to_le_bytes(inst.1);
        r.append(&mut hi);
        proof {
            assert(r@ == pair_bytes(inst));
        }
        r
    }

    fn decode(&self, data: Vec<u8>) -> (r: (u64, u64)) {
        let mut lo_bytes: Vec<u8> = Vec::new();
        let mut hi_bytes: Vec<u8> = Vec::new();
        let mut i: usize = 0;
        while i < 8
            invariant
                i <= 8,
                lo_bytes@.len() == i,
                forall|t: int| 0 <= t < i as int ==> lo_bytes@[t] == padded_byte(data@, t),
            decreases 8 - i,
        {
            if i < data.len() {
                lo_bytes.push(data[i]);
            } else {
                lo_bytes.push(0);
            }
            i = i + 1;
        }
        let mut j: usize = 8;
        while j < 16
            invariant
                8 <= j <= 16,
                hi_bytes@.len() == j - 8,
                forall|t: int| 0 <= t < j as int - 8 ==> hi_bytes@[t] == padded_byte(data@, t + 8),
            decreases 16 - j,
        {
            if j < data.len() {
                hi_bytes.push(data[j]);
            } else {
                hi_bytes.push(0);
            }
            j = j + 1;
        }
        proof {
            let padded = data@ + Seq::new(16, |i: int| 0u8);
            assert(lo_bytes@ =~= padded.subrange(0, 8));
            assert(hi_bytes@ =~= padded.subrange(8, 16));
        }
        let lo = vstd::bytes::u64_from_le_bytes(lo_bytes.as_slice());
        let hi = vstd::bytes::u64_from_le_bytes(hi_bytes.as_slice());
        (lo, hi)
    }

    proof fn round_trip(&self, inst: (u64, u64)) {
        vstd::bytes::lemma_auto_spec_u64_to_from_le_bytes();
        let enc = pair_bytes(inst);
        let padded = enc + Seq::new(16, |i: int| 0u8);
        assert(padded.subrange(0, 8) =~= vstd::bytes::spec_u64_to_le_bytes(inst.0));
        assert(padded.subrange(8, 16) =~= vstd::bytes::spec_u64_to_le_bytes(inst.1));
    }
}

/// The byte at position `t` of `data` extended with zeros.
pub open spec fn padded_byte(data: Seq<u8>, t: int) -> u8 {
    if 0 <= t < data.len() {
        data[t]
    } else {
        0
    }
}

} // verus!
