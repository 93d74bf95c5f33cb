use blake2::Blake2b256;
use blake2::Digest;
use merkle_trie::trie::common_prefix;
use merkle_trie::trie::Nibble;
use merkle_trie::trie::Trie;
use merkle_trie::trie::TrieNodeKey;
use parity_scale_codec::Encode as _;

fn to_compact(n: u8) -> u8 {
    parity_scale_codec::Compact(n).encode()[0]
}

fn blake2_256_of(data: &[u8]) -> [u8; 32] {
    let mut out = [0u8; 32];
    out.copy_from_slice(&Blake2b256::digest(data));
    out
}

#[test]
fn common_prefix_works_trivial() {
    let a = vec![Nibble(0)];

    let obtained = common_prefix(&[a.clone()]);
    assert_eq!(obtained, Some(a));
}

#[test]
fn common_prefix_works_empty() {
    let obtained = common_prefix(&[]);
    assert_eq!(obtained, None);
}

#[test]
fn common_prefix_works_basic() {
    let a = vec![Nibble(5), Nibble(4), Nibble(6)];
    let b = vec![Nibble(5), Nibble(4), Nibble(9), Nibble(12)];

    let obtained = common_prefix(&[a, b]);
    assert_eq!(obtained, Some(vec![Nibble(5), Nibble(4)]));
}

#[test]
fn common_prefix_distinguishes_empty_input_from_empty_prefix() {
    // A single empty key: the answer is "some, and empty", not "none".
    let obtained = common_prefix(&[Vec::new()]);
    assert_eq!(obtained, Some(Vec::new()));
    // Two keys with no shared leading nibble: also "some, and empty".
    let a = vec![Nibble(1)];
    let b = vec![Nibble(2)];
    assert_eq!(common_prefix(&[a, b]), Some(Vec::new()));
}

#[test]
fn trie_root_one_node() {
    let mut trie = Trie::new();
    trie.insert(b"abcd", b"hello world".to_vec());
    let _hash = trie.root_merkle_value();
}

#[test]
fn one_node_root_is_hash_of_leaf_encoding() {
    let mut trie = Trie::new();
    trie.insert(b"abcd", b"hello world".to_vec());
    // The root is the hash of the root node's canonical encoding: a leaf
    // with the key's 8 nibbles and the value.
    let mut enc: Vec<u8> = Vec::new();
    enc.push(0x48); // leaf, 8 nibbles
    enc.extend_from_slice(b"abcd"); // packed nibbles: the key bytes themselves
    enc.push(to_compact(11)); // value length
    enc.extend_from_slice(b"hello world");
    assert_eq!(trie.root_merkle_value(), blake2_256_of(&enc));
}

#[test]
fn trie_root_unhashed_empty() {
    let trie = Trie::new();
    let obtained = trie.node_value(
        TrieNodeKey {
            nibbles: Vec::new(),
        },
        None,
        TrieNodeKey {
            nibbles: Vec::new(),
        },
    );
    assert_eq!(obtained, vec![0x0]);
}

#[test]
fn trie_root_unhashed_single_tuple() {
    let mut trie = Trie::new();
    trie.insert(&[0xaa], [0xbb].to_vec());
    let obtained = trie.node_value(
        TrieNodeKey {
            nibbles: Vec::new(),
        },
        None,
        TrieNodeKey::from_bytes(&[0xaa]),
    );

    assert_eq!(
        obtained,
        vec![
            0x42,          // leaf 0x40 (2^6) with (+) key of 2 nibbles (0x02)
            0xaa,          // key data
            to_compact(1), // length of value in bytes as Compact
            0xbb           // value data
        ]
    );
}

#[test]
fn trie_root_unhashed() {
    let mut trie = Trie::new();
    trie.insert(&[0x48, 0x19], [0xfe].to_vec());
    trie.insert(&[0x13, 0x14], [0xff].to_vec());

    let obtained = trie.node_value(
        TrieNodeKey {
            nibbles: Vec::new(),
        },
        None,
        TrieNodeKey {
            nibbles: Vec::new(),
        },
    );

    let mut ex = Vec::<u8>::new();
    ex.push(0x80); // branch, no value (0b_10..) no nibble
    ex.push(0x12); // slots 1 & 4 are taken from 0-7
    ex.push(0x00); // no slots from 8-15
    ex.push(to_compact(0x05)); // first slot: LEAF, 5 bytes long.
    ex.push(0x43); // leaf 0x40 with 3 nibbles
    ex.push(0x03); // first nibble
    ex.push(0x14); // second & third nibble
    ex.push(to_compact(0x01)); // 1 byte data
    ex.push(0xff); // value data
    ex.push(to_compact(0x05)); // second slot: LEAF, 5 bytes long.
    ex.push(0x43); // leaf with 3 nibbles
    ex.push(0x08); // first nibble
    ex.push(0x19); // second & third nibble
    ex.push(to_compact(0x01)); // 1 byte data
    ex.push(0xfe); // value data

    assert_eq!(obtained, ex);
}

#[test]
fn empty_trie_root_hashes_single_zero_byte() {
    let trie = Trie::new();
    assert_eq!(trie.root_merkle_value(), blake2_256_of(&[0x00]));
}

#[test]
fn root_hashes_the_node_value() {
    let mut trie = Trie::new();
    trie.insert(&[0xaa], [0xbb].to_vec());
    let enc = trie.node_value(
        TrieNodeKey {
            nibbles: Vec::new(),
        },
        None,
        TrieNodeKey::from_bytes(&[0xaa]),
    );
    assert_eq!(trie.root_merkle_value(), blake2_256_of(&enc));
}

#[test]
fn value_length_uses_two_byte_compact_mode() {
    let mut trie = Trie::new();
    let value = vec![0x11u8; 70];
    trie.insert(&[0xaa], value.clone());
    let obtained = trie.node_value(
        TrieNodeKey {
            nibbles: Vec::new(),
        },
        None,
        TrieNodeKey::from_bytes(&[0xaa]),
    );
    let mut ex = Vec::<u8>::new();
    ex.push(0x42); // leaf, 2 nibbles
    ex.push(0xaa); // key data
    ex.push(0x19); // compact(70) = 70 * 4 + 1 = 0x0119, little-endian
    ex.push(0x01);
    ex.extend_from_slice(&value);
    assert_eq!(obtained, ex);
}

#[test]
fn long_partial_key_uses_header_continuation() {
    let mut trie = Trie::new();
    let key = vec![0x12u8; 32]; // 64 nibbles: does not fit the header's 6 bits
    trie.insert(&key, [0x07].to_vec());
    let obtained = trie.node_value(
        TrieNodeKey {
            nibbles: Vec::new(),
        },
        None,
        TrieNodeKey::from_bytes(&key),
    );
    let mut ex = Vec::<u8>::new();
    ex.push(0x7f); // leaf with partial-key length escape: 0x40 + 63
    ex.push(0x02); // continuation: 64 - 62
    ex.extend_from_slice(&key); // packed nibbles: the key bytes themselves
    ex.push(to_compact(1));
    ex.push(0x07);
    assert_eq!(obtained, ex);
}

#[test]
fn large_children_are_replaced_by_their_digest() {
    let mut trie = Trie::new();
    trie.insert(&[0x12, 0x34], vec![0xaa; 40]);
    trie.insert(&[0x56, 0x78], vec![0xbb; 40]);

    // Each child's encoding is 44 bytes, at least the 32-byte threshold, so
    // the parent stores the children's digests.
    let c1 = trie.node_value(
        TrieNodeKey {
            nibbles: Vec::new(),
        },
        Some(Nibble(1)),
        TrieNodeKey {
            nibbles: vec![Nibble(2), Nibble(3), Nibble(4)],
        },
    );
    let c2 = trie.node_value(
        TrieNodeKey {
            nibbles: Vec::new(),
        },
        Some(Nibble(5)),
        TrieNodeKey {
            nibbles: vec![Nibble(6), Nibble(7), Nibble(8)],
        },
    );
    assert_eq!(c1.len(), 44);
    assert_eq!(c2.len(), 44);

    let obtained = trie.node_value(
        TrieNodeKey {
            nibbles: Vec::new(),
        },
        None,
        TrieNodeKey {
            nibbles: Vec::new(),
        },
    );
    let mut ex = Vec::<u8>::new();
    ex.push(0x80); // branch without value
    ex.push(0x22); // slots 1 and 5
    ex.push(0x00);
    ex.push(0x80); // compact(32): each child reference is a digest
    ex.extend_from_slice(&blake2_256_of(&c1));
    ex.push(0x80);
    ex.extend_from_slice(&blake2_256_of(&c2));
    assert_eq!(obtained, ex);

    assert_eq!(trie.root_merkle_value(), blake2_256_of(&ex));
}

#[test]
fn branch_with_own_value() {
    let mut trie = Trie::new();
    trie.insert(&[0x12], [0x0a].to_vec());
    trie.insert(&[0x12, 0x34], [0x0b].to_vec());

    let obtained = trie.node_value(
        TrieNodeKey {
            nibbles: Vec::new(),
        },
        None,
        TrieNodeKey::from_bytes(&[0x12]),
    );
    let mut ex = Vec::<u8>::new();
    ex.push(0xc2); // branch with value, 2 nibbles of partial key
    ex.push(0x12); // partial key
    ex.push(0x08); // child at slot 3
    ex.push(0x00);
    ex.push(to_compact(1)); // own value
    ex.push(0x0a);
    ex.push(to_compact(4)); // child reference: a 4-byte leaf
    ex.push(0x41); // leaf, 1 nibble (the 4 after the branch's 3)
    ex.push(0x04);
    ex.push(to_compact(1));
    ex.push(0x0b);
    assert_eq!(obtained, ex);
}

#[test]
fn root_is_deterministic_in_insertion_order() {
    let mut a = Trie::new();
    a.insert(b"foo", b"one".to_vec());
    a.insert(b"bar", b"two".to_vec());
    a.insert(b"baz", b"three".to_vec());

    let mut b = Trie::new();
    b.insert(b"baz", b"xxx".to_vec());
    b.insert(b"bar", b"two".to_vec());
    b.insert(b"foo", b"one".to_vec());
    b.insert(b"baz", b"three".to_vec()); // overwrite

    assert_eq!(a.root_merkle_value(), b.root_merkle_value());
}

#[test]
fn root_is_sensitive_to_single_changes() {
    let mut a = Trie::new();
    a.insert(b"foo", b"one".to_vec());
    a.insert(b"bar", b"two".to_vec());
    let base = a.root_merkle_value();

    let mut b = Trie::new();
    b.insert(b"foo", b"one".to_vec());
    b.insert(b"bar", b"TWO".to_vec());
    assert_ne!(base, b.root_merkle_value()); // value change

    let mut c = Trie::new();
    c.insert(b"foo", b"one".to_vec());
    assert_ne!(base, c.root_merkle_value()); // removal

    let mut d = Trie::new();
    d.insert(b"foo", b"one".to_vec());
    d.insert(b"bar", b"two".to_vec());
    d.insert(b"qux", b"four".to_vec());
    assert_ne!(base, d.root_merkle_value()); // addition
}

#[test]
fn removal_of_absent_key_is_idempotent() {
    let mut trie = Trie::new();
    trie.insert(b"foo", b"one".to_vec());
    let base = trie.root_merkle_value();

    assert_eq!(trie.remove(b"bar"), None);
    assert_eq!(trie.root_merkle_value(), base);
}

#[test]
fn remove_then_reinsert_restores_root() {
    let mut trie = Trie::new();
    trie.insert(b"foo", b"one".to_vec());
    trie.insert(b"bar", b"two".to_vec());
    let base = trie.root_merkle_value();

    assert_eq!(trie.remove(b"foo"), Some(b"one".to_vec()));
    assert_ne!(trie.root_merkle_value(), base);
    trie.insert(b"foo", b"one".to_vec());
    assert_eq!(trie.root_merkle_value(), base);
}

#[test]
fn facade_basics() {
    let mut trie = Trie::new();
    assert!(trie.is_empty());
    trie.insert(b"k", b"v".to_vec());
    assert!(!trie.is_empty());
    assert_eq!(trie.remove(b"k"), Some(b"v".to_vec()));
    assert!(trie.is_empty());
    trie.insert(b"a", b"1".to_vec());
    trie.insert(b"b", b"2".to_vec());
    trie.clear();
    assert!(trie.is_empty());
    assert_eq!(trie.root_merkle_value(), blake2_256_of(&[0x00]));
}

#[test]
fn from_bytes_splits_high_nibble_first() {
    let k = TrieNodeKey::from_bytes(&[0xab, 0x01]);
    assert_eq!(
        k.nibbles,
        vec![Nibble(0xa), Nibble(0xb), Nibble(0x0), Nibble(0x1)]
    );
}
