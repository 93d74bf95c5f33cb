//! The two supplied primitives of the wire format: the SCALE compact
//! integer encoding (for length prefixes) and the 32-byte BLAKE2b digest.

use vstd::prelude::*;

use blake2::Digest;

verus! {

/// The `k` little-endian bytes of `n`.
pub open spec fn le_bytes(n: int, k: nat) -> Seq<u8>
    decreases k,
{
    if k == 0 {
        Seq::empty()
    } else {
        seq![(n % 256) as u8] + le_bytes(n / 256, (k - 1) as nat)
    }
}

/// How many bytes the four-or-more-byte mode of the compact encoding uses
/// for `n`: the shortest little-endian form without trailing zero bytes.
pub open spec fn compact_big_len(n: u64) -> nat {
    if n < 0x1_0000_0000 {
        4
    } else if n < 0x100_0000_0000 {
        5
    } else if n < 0x1_0000_0000_0000 {
        6
    } else if n < 0x100_0000_0000_0000 {
        7
    } else {
        8
    }
}

/// The SCALE compact encoding of `n`: the two low bits of the first byte
/// select the mode (single byte, two bytes, four bytes, or a length-prefixed
/// little-endian big mode), and the remaining bits carry the value.
pub open spec fn compact_encoding(n: u64) -> Seq<u8> {
    if n < 0x40 {
        seq![(n * 4) as u8]
    } else if n < 0x4000 {
        le_bytes(n * 4 + 1, 2)
    } else if n < 0x4000_0000 {
        le_bytes(n * 4 + 2, 4)
    } else {
        seq![(3 + (compact_big_len(n) - 4) * 4) as u8] + le_bytes(n as int, compact_big_len(n))
    }
}

pub proof fn lemma_le_bytes_len(n: int, k: nat)
    ensures
        le_bytes(n, k).len() == k,
    decreases k,
{
    if k > 0 {
        lemma_le_bytes_len(n / 256, (k - 1) as nat);
    }
}

/// How long the compact encoding of `n` is.
pub proof fn lemma_compact_len(n: u64)
    ensures
        compact_encoding(n).len() == if n < 0x40 {
            1int
        } else if n < 0x4000 {
            2int
        } else if n < 0x4000_0000 {
            4int
        } else {
            1int + compact_big_len(n)
        },
{
    if n < 0x40 {
    } else if n < 0x4000 {
        lemma_le_bytes_len(n * 4 + 1, 2);
    } else if n < 0x4000_0000 {
        lemma_le_bytes_len(n * 4 + 2, 4);
    } else {
        lemma_le_bytes_len(n as int, compact_big_len(n));
    }
}

/// Relies on parity_scale_codec's `Encode` impl for `Compact<u64>`: it
/// produces the SCALE compact encoding of `n` described by
/// `compact_encoding`.
#[verifier::external_body]
pub(crate) fn compact_encode_u64(n: u64) -> (r: Vec<u8>)
    ensures
        r@ == compact_encoding(n),
{
    parity_scale_codec::Encode::encode(&parity_scale_codec::Compact(n))
}

/// The 32-byte BLAKE2b digest of a byte string; it depends on the input
/// bytes alone.
pub uninterp spec fn blake2b_256(data: Seq<u8>) -> Seq<u8>;

/// Relies on blake2's `Blake2b256` (BLAKE2b with a 32-byte output): a pure
/// function of the input bytes, named `blake2b_256` here.
#[verifier::external_body]
pub(crate) fn blake2b_256_hash(data: &[u8]) -> (r: [u8; 32])
    ensures
        r@ == blake2b_256(data@),
{
    let mut out = [0u8; 32];
    let digest = blake2::Blake2b256::digest(data);
    out.copy_from_slice(&digest);
    out
}

} // verus!
