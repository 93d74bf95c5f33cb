use blake2::Blake2b256;
use blake2::Digest;
use parity_scale_codec::Encode as _;
use merkle_trie::header::hash_from_scale_encoded_header;
use merkle_trie::header::DigestRef;
use merkle_trie::header::HeaderRef;

fn blake2_256_of(data: &[u8]) -> [u8; 32] {
    let mut out = [0u8; 32];
    out.copy_from_slice(&Blake2b256::digest(data));
    out
}

#[test]
fn hash_matches_blake2b_256_empty_vector() {
    // The BLAKE2b-256 digest of the empty string.
    let expected: [u8; 32] = [
        0x0e, 0x57, 0x51, 0xc0, 0x26, 0xe5, 0x43, 0xb2, 0xe8, 0xab, 0x2e, 0xb0, 0x60, 0x99,
        0xda, 0xa1, 0xd1, 0xe5, 0xdf, 0x47, 0x77, 0x8f, 0x77, 0x87, 0xfa, 0xab, 0x45, 0xcd,
        0xf1, 0x2f, 0xe3, 0xa8,
    ];
    assert_eq!(hash_from_scale_encoded_header(&[]), expected);
    assert_eq!(hash_from_scale_encoded_header(&[]), blake2_256_of(&[]));
}

#[test]
fn hash_from_scale_encoded_header_hashes_the_bytes() {
    let data = b"arbitrary header bytes";
    assert_eq!(hash_from_scale_encoded_header(data), blake2_256_of(data));
}

#[test]
fn vectored_hash_equals_hash_of_concatenation() {
    let buffers = vec![b"arbitrary ".to_vec(), Vec::new(), b"header bytes".to_vec()];
    assert_eq!(
        merkle_trie::header::hash_from_scale_encoded_header_vectored(&buffers),
        blake2_256_of(b"arbitrary header bytes"),
    );
}

#[test]
fn empty_digest_encodes_as_zero_count() {
    let d = DigestRef::empty();
    assert_eq!(d.scale_encoding(), vec![0x00]);
}

#[test]
fn header_encoding_concatenates_the_fields() {
    let header = HeaderRef {
        parent_hash: vec![0x01; 32],
        number: 60,
        state_root: vec![0x02; 32],
        extrinsics_root: vec![0x03; 32],
        digest: DigestRef::empty(),
    };
    let mut expected: Vec<u8> = Vec::new();
    expected.extend_from_slice(&[0x01; 32]);
    expected.push(0xf0); // compact(60) = 60 * 4, one byte
    expected.extend_from_slice(&[0x02; 32]);
    expected.extend_from_slice(&[0x03; 32]);
    expected.push(0x00); // empty digest: compact(0) and no items
    assert_eq!(header.scale_encoding(), expected);
    assert_eq!(header.hash(), blake2_256_of(&expected));
}

#[test]
fn header_number_uses_multi_byte_compact_modes() {
    let header = HeaderRef {
        parent_hash: vec![0x00; 32],
        number: 1_000_000,
        state_root: vec![0x00; 32],
        extrinsics_root: vec![0x00; 32],
        digest: DigestRef::empty(),
    };
    let enc = header.scale_encoding();
    // compact(1_000_000) = 1_000_000 * 4 + 2 = 0x3d0902, four bytes LE.
    assert_eq!(&enc[32..36], &[0x02, 0x09, 0x3d, 0x00]);
    assert_eq!(
        &enc[32..36],
        &parity_scale_codec::Compact(1_000_000u64).encode()[..]
    );
}
