//! The seed from which a movie key is drawn: its SCALE encoding and its
//! Blake2 hash.

use vstd::prelude::*;

verus! {

/// The four little-endian bytes of `x`.
pub open spec fn le_bytes_u32(x: u32) -> Seq<u8> {
    seq![
        (x % 0x100) as u8,
        ((x / 0x100) % 0x100) as u8,
        ((x / 0x1_0000) % 0x100) as u8,
        (x / 0x100_0000) as u8,
    ]
}

/// The SCALE encoding of an optional `u32`: a tag byte, then the value.
pub open spec fn scale_option_u32(x: Option<u32>) -> Seq<u8> {
    match x {
        None => seq![0u8],
        Some(v) => seq![1u8] + le_bytes_u32(v),
    }
}

/// The SCALE encoding of the triple `(seed, nonce, extrinsic_index)`: the
/// 32 bytes of the seed, the nonce in four little-endian bytes, then the
/// optional index.
pub open spec fn seed_payload(seed: Seq<u8>, nonce: u32, extrinsic_index: Option<u32>) -> Seq<u8> {
    seed + le_bytes_u32(nonce) + scale_option_u32(extrinsic_index)
}

/// The SCALE encoding of a random seed, a nonce and the index of the
/// current extrinsic.
///
/// Calls `parity_scale_codec::Encode::encode` on the tuple. The contract
/// states the bytes that the codec's implementations for `[u8; 32]`
/// (the bytes themselves), `u32` (little-endian) and `Option` (tag byte
/// 0 or 1, then the value) and for tuples (the concatenation) write.
#[verifier::external_body]
pub fn encode_seed_payload(seed: &[u8; 32], nonce: u32, extrinsic_index: Option<u32>) -> (r: Vec<u8>)
    ensures
        r@ == seed_payload(seed@, nonce, extrinsic_index),
{
    parity_scale_codec::Encode::encode(&(seed, &nonce, extrinsic_index))
}

/// The 128-bit Blake2 hash of `data`.
pub uninterp spec fn blake2_128_of(data: Seq<u8>) -> Seq<u8>;

/// The 16 bytes of the Blake2-128 hash of `data`.
///
/// Calls `sp_io::hashing::blake2_128`, a deterministic hash returning
/// `[u8; 16]`; the contract names its result and states its length.
#[verifier::external_body]
pub fn blake2_128(data: &[u8]) -> (r: Vec<u8>)
    ensures
        r@ == blake2_128_of(data@),
        r@.len() == 16,
{
    sp_io::hashing::blake2_128(data).to_vec()
}

} // verus!
