//! Block-header hashing.
//!
//! A block header travels as one SCALE-encoded byte string: the parent
//! hash, the compact-encoded block number, the state root, the extrinsics
//! root, and the digest (a compact-encoded count of log items followed by
//! the items' encodings). The block hash is the 32-byte BLAKE2b digest of
//! that byte string.

use vstd::prelude::*;

use crate::codec::blake2b_256;
use crate::codec::blake2b_256_hash;
use crate::codec::compact_encode_u64;
use crate::codec::compact_encoding;

verus! {

/// Returns the hash of a SCALE-encoded header.
///
/// Does not verify the validity of the header.
pub fn hash_from_scale_encoded_header(header: &[u8]) -> (r: [u8; 32])
    ensures
        r@ == blake2b_256(header@),
{
    blake2b_256_hash(header)
}

/// The concatenation of a list of byte buffers.
pub open spec fn concat_bytes(s: Seq<Seq<u8>>) -> Seq<u8>
    decreases s.len(),
{
    if s.len() == 0 {
        Seq::empty()
    } else {
        concat_bytes(s.drop_last()) + s.last()
    }
}

/// Returns the hash of a SCALE-encoded header.
///
/// Must be passed a list of buffers, which, when concatenated, form the
/// SCALE-encoded header.
///
/// Does not verify the validity of the header.
pub fn hash_from_scale_encoded_header_vectored(header: &Vec<Vec<u8>>) -> (r: [u8; 32])
    ensures
        r@ == blake2b_256(concat_bytes(header@.map_values(|v: Vec<u8>| v@))),
{
    let mut buf: Vec<u8> = Vec::new();
    let mut j: usize = 0;
    while j < header.len()
        invariant
            0 <= j <= header@.len(),
            buf@ == concat_bytes(header@.map_values(|v: Vec<u8>| v@).subrange(0, j as int)),
        decreases header@.len() - j,
    {
        buf.extend_from_slice(header[j].as_slice());
        proof {
            let hv = header@.map_values(|v: Vec<u8>| v@);
            assert(hv.subrange(0, j + 1).drop_last() =~= hv.subrange(0, j as int));
            assert(hv.subrange(0, j + 1).last() == header@[j as int]@);
            assert(buf@ =~= concat_bytes(hv.subrange(0, j + 1)));
        }
        j = j + 1;
    }
    proof {
        let hv = header@.map_values(|v: Vec<u8>| v@);
        assert(hv.subrange(0, hv.len() as int) =~= hv);
    }
    blake2b_256_hash(buf.as_slice())
}

/// Generic header digest: a number of log items together with the
/// concatenation of their encodings. The byte string's validity must be
/// established before a `DigestRef` is built, which is why the fields stay
/// private; an empty digest is always valid.
pub struct DigestRef {
    /// Number of log items.
    digest_logs_len: u64,
    /// Concatenated encodings of the log items.
    digest: Vec<u8>,
}

/// The SCALE encoding of a digest: the compact-encoded item count followed
/// by the items' encodings.
pub open spec fn digest_encoding(d: DigestRef) -> Seq<u8> {
    compact_encoding(d.spec_logs_len()) + d.spec_logs_bytes()
}

impl DigestRef {
    /// The number of log items.
    pub closed spec fn spec_logs_len(self) -> u64 {
        self.digest_logs_len
    }

    /// The concatenated encodings of the log items.
    pub closed spec fn spec_logs_bytes(self) -> Seq<u8> {
        self.digest@
    }

    /// Returns a digest with empty logs.
    pub fn empty() -> (r: DigestRef)
        ensures
            r.spec_logs_len() == 0,
            r.spec_logs_bytes() == Seq::<u8>::empty(),
    {
        let r = DigestRef { digest_logs_len: 0, digest: Vec::new() };
        proof {
            assert(r.spec_logs_bytes() =~= Seq::<u8>::empty());
        }
        r
    }

    /// The SCALE encoding of the digest.
    pub fn scale_encoding(&self) -> (r: Vec<u8>)
        ensures
            r@ == digest_encoding(*self),
    {
        let mut out = compact_encode_u64(self.digest_logs_len);
        out.extend_from_slice(self.digest.as_slice());
        proof {
            assert(out@ =~= digest_encoding(*self));
        }
        out
    }
}

/// Header of a block, as plain owned fields.
///
/// The two root fields and the parent hash are expected to hold 32 bytes
/// each; the encoding concatenates whatever bytes they hold.
pub struct HeaderRef {
    /// Hash of the parent block stored in the header.
    pub parent_hash: Vec<u8>,
    /// Block number stored in the header.
    pub number: u64,
    /// The state trie Merkle root.
    pub state_root: Vec<u8>,
    /// The Merkle root of the extrinsics.
    pub extrinsics_root: Vec<u8>,
    /// Auxiliary data appended to the block header.
    pub digest: DigestRef,
}

/// The SCALE encoding of a header: parent hash, compact-encoded number,
/// state root, extrinsics root, digest.
pub open spec fn header_encoding_bytes(h: HeaderRef) -> Seq<u8> {
    h.parent_hash@ + compact_encoding(h.number) + h.state_root@ + h.extrinsics_root@
        + digest_encoding(h.digest)
}

impl HeaderRef {
    /// The SCALE encoding of the header, as one byte string.
    pub fn scale_encoding(&self) -> (r: Vec<u8>)
        ensures
            r@ == header_encoding_bytes(*self),
    {
        let mut out: Vec<u8> = Vec::new();
        out.extend_from_slice(self.parent_hash.as_slice());
        let mut n = compact_encode_u64(self.number);
        out.append(&mut n);
        out.extend_from_slice(self.state_root.as_slice());
        out.extend_from_slice(self.extrinsics_root.as_slice());
        let mut d = self.digest.scale_encoding();
        out.append(&mut d);
        proof {
            assert(out@ =~= header_encoding_bytes(*self));
        }
        out
    }

    /// Builds the hash of the header.
    pub fn hash(&self) -> (r: [u8; 32])
        ensures
            r@ == blake2b_256(header_encoding_bytes(*self)),
    {
        let enc = self.scale_encoding();
        blake2b_256_hash(enc.as_slice())
    }
}

} // verus!
