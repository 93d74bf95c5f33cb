//! Radix-16 Merkle-Patricia trie.
//!
//! The trie associates byte-string keys with byte-string values and commits
//! to its whole contents with a single 32-byte digest, the Merkle root. The
//! root is recomputed from the entries on demand; it is a pure function of
//! the key/value contents, never of the order in which they were inserted.

use vstd::prelude::*;

pub use crate::nibble::common_prefix;
pub use crate::nibble::Nibble;
pub use crate::nibble::TrieNodeKey;

use crate::codec::blake2b_256;
use crate::codec::blake2b_256_hash;
use crate::codec::compact_encoding;
use crate::codec::lemma_compact_len;
use crate::encode::child_mask;
use crate::encode::copy_suffix;
use crate::encode::header_encoding;
use crate::encode::keys_of;
use crate::encode::lemma_child_entries_empty_keys;
use crate::encode::lemma_children_encoding_empty_keys;
use crate::encode::pack_nibbles;
use crate::encode::encode_node;
use crate::encode::encode_subtrie;
use crate::encode::entries_view;
use crate::encode::entries_with_prefix;
use crate::encode::node_encoding;
use crate::encode::strip_prefix_len;
use crate::encode::subtrie_encoding;
use crate::encode::valid_entries;
use crate::nibble::is_prefix_of;
use crate::nibble::lcp_all;
use crate::nibble::lemma_lex_asymmetric;
use crate::nibble::lemma_lex_connected;
use crate::nibble::lemma_lex_irreflexive;
use crate::nibble::lemma_lex_lt_at;
use crate::nibble::lemma_lex_transitive;
use crate::nibble::lemma_nibble_order;
use crate::nibble::lemma_nibbles_of_bytes_form;
use crate::nibble::lemma_nibbles_of_bytes_snoc;
use crate::nibble::lex_lt;
use crate::nibble::nibbles_of_bytes;
use crate::nibble::nibbles_valid;

verus! {

/// Entries sorted strictly by key: every key occurs once, in lexicographic
/// order.
pub open spec fn sorted_entries(s: Seq<(Seq<u8>, Seq<u8>)>) -> bool {
    forall|i: int, j: int| 0 <= i < j < s.len() ==> lex_lt(#[trigger] s[i].0, #[trigger] s[j].0)
}

/// Some entry has key `k`.
pub open spec fn has_key(s: Seq<(Seq<u8>, Seq<u8>)>, k: Seq<u8>) -> bool {
    exists|i: int| 0 <= i < s.len() && (#[trigger] s[i]).0 == k
}

/// The index of the entry with key `k` (meaningful when `has_key`).
pub open spec fn entry_index(s: Seq<(Seq<u8>, Seq<u8>)>, k: Seq<u8>) -> int {
    choose|i: int| 0 <= i < s.len() && (#[trigger] s[i]).0 == k
}

/// The key/value mapping an entry list represents.
pub open spec fn map_of(s: Seq<(Seq<u8>, Seq<u8>)>) -> Map<Seq<u8>, Seq<u8>> {
    Map::new(|k: Seq<u8>| has_key(s, k), |k: Seq<u8>| s[entry_index(s, k)].1)
}

/// The entries of a byte-keyed list, each key replaced by its nibbles.
pub open spec fn nib_entries_of(s: Seq<(Seq<u8>, Seq<u8>)>) -> Seq<(Seq<u8>, Seq<u8>)> {
    s.map_values(|e: (Seq<u8>, Seq<u8>)| (nibbles_of_bytes(e.0), e.1))
}

/// The nibble sequence a child index contributes to a node's position.
pub open spec fn opt_nibble_seq(o: Option<Nibble>) -> Seq<u8> {
    match o {
        Option::Some(n) => seq![n.0],
        Option::None => Seq::empty(),
    }
}

/// The canonical encoding of the node at `position ++ pk` whose partial key
/// is `pk`, computed over the nibble-keyed entries of the whole trie.
pub open spec fn node_value_spec(
    entries: Seq<(Seq<u8>, Seq<u8>)>,
    position: Seq<u8>,
    pk: Seq<u8>,
) -> Seq<u8> {
    node_encoding(
        pk,
        strip_prefix_len(
            entries_with_prefix(entries, position + pk),
            position.len() + pk.len() as int,
        ),
    )
}

/// In a strictly sorted entry list all keys are distinct.
pub proof fn lemma_sorted_distinct(s: Seq<(Seq<u8>, Seq<u8>)>)
    requires
        sorted_entries(s),
    ensures
        forall|i: int, j: int|
            0 <= i < s.len() && 0 <= j < s.len() && i != j ==> (#[trigger] s[i]).0 != (
            #[trigger] s[j]).0,
{
    assert forall|i: int, j: int|
        0 <= i < s.len() && 0 <= j < s.len() && i != j implies (#[trigger] s[i]).0 != (
    #[trigger] s[j]).0 by {
        if i < j {
            lemma_lex_asymmetric(s[i].0, s[j].0);
        } else {
            lemma_lex_asymmetric(s[j].0, s[i].0);
        }
    }
}

/// Inserting a fresh entry at its sorted slot inserts its pair in the map.
proof fn lemma_map_insert_at(s: Seq<(Seq<u8>, Seq<u8>)>, idx: int, k: Seq<u8>, v: Seq<u8>)
    requires
        sorted_entries(s),
        0 <= idx <= s.len(),
        forall|j: int| 0 <= j < idx ==> lex_lt((#[trigger] s[j]).0, k),
        forall|j: int| idx <= j < s.len() ==> lex_lt(k, (#[trigger] s[j]).0),
    ensures
        sorted_entries(s.insert(idx, (k, v))),
        map_of(s.insert(idx, (k, v))) == map_of(s).insert(k, v),
{
    let s2 = s.insert(idx, (k, v));
    assert(s2.len() == s.len() + 1);
    assert(forall|i: int| 0 <= i < idx ==> s2[i] == #[trigger] s[i]);
    assert(s2[idx] == (k, v));
    assert(forall|i: int| idx < i < s2.len() ==> s2[i] == #[trigger] s[i - 1]);
    assert(sorted_entries(s2));
    lemma_sorted_distinct(s2);
    lemma_sorted_distinct(s);
    assert forall|kk: Seq<u8>| has_key(s2, kk) implies kk == k || has_key(s, kk) by {
        let w = choose|i: int| 0 <= i < s2.len() && (#[trigger] s2[i]).0 == kk;
        if w < idx {
            assert(s[w].0 == kk);
        } else if w == idx {
        } else {
            assert(s[w - 1].0 == kk);
        }
    }
    assert forall|kk: Seq<u8>| kk == k || has_key(s, kk) implies has_key(s2, kk) by {
        if kk == k {
            assert(s2[idx].0 == kk);
        } else {
            let w = choose|i: int| 0 <= i < s.len() && (#[trigger] s[i]).0 == kk;
            if w < idx {
                assert(s2[w].0 == kk);
            } else {
                assert(s2[w + 1].0 == kk);
            }
        }
    }
    assert forall|kk: Seq<u8>| #[trigger] map_of(s2).dom().contains(kk) implies map_of(s2)[kk]
        == map_of(s).insert(k, v)[kk] by {
        let w = entry_index(s2, kk);
        assert(0 <= w < s2.len() && s2[w].0 == kk);
        if kk == k {
            assert(w == idx);
            assert(map_of(s2)[kk] == v);
        } else {
            assert(w != idx);
            if w < idx {
                assert(s[w].0 == kk);
                assert(entry_index(s, kk) == w);
                assert(map_of(s)[kk] == s[w].1);
            } else {
                assert(s[w - 1].0 == kk);
                assert(entry_index(s, kk) == w - 1);
                assert(map_of(s)[kk] == s[w - 1].1);
            }
        }
    }
    assert(map_of(s2) =~= map_of(s).insert(k, v));
}

/// Replacing the value at an existing slot updates the map at that key.
proof fn lemma_map_update_at(s: Seq<(Seq<u8>, Seq<u8>)>, idx: int, v: Seq<u8>)
    requires
        sorted_entries(s),
        0 <= idx < s.len(),
    ensures
        sorted_entries(s.update(idx, (s[idx].0, v))),
        map_of(s.update(idx, (s[idx].0, v))) == map_of(s).insert(s[idx].0, v),
{
    let k = s[idx].0;
    let s2 = s.update(idx, (k, v));
    assert(forall|i: int| 0 <= i < s.len() && i != idx ==> s2[i] == #[trigger] s[i]);
    assert(forall|i: int| 0 <= i < s.len() ==> (#[trigger] s2[i]).0 == s[i].0);
    assert(sorted_entries(s2));
    lemma_sorted_distinct(s2);
    lemma_sorted_distinct(s);
    assert forall|kk: Seq<u8>| has_key(s2, kk) <==> has_key(s, kk) by {
        if has_key(s2, kk) {
            let w = choose|i: int| 0 <= i < s2.len() && (#[trigger] s2[i]).0 == kk;
            assert(s[w].0 == kk);
        }
        if has_key(s, kk) {
            let w = choose|i: int| 0 <= i < s.len() && (#[trigger] s[i]).0 == kk;
            assert(s2[w].0 == kk);
        }
    }
    assert forall|kk: Seq<u8>| #[trigger] map_of(s2).dom().contains(kk) implies map_of(s2)[kk]
        == map_of(s).insert(k, v)[kk] by {
        let w = entry_index(s2, kk);
        assert(0 <= w < s2.len() && s2[w].0 == kk);
        if kk == k {
            assert(w == idx);
        } else {
            assert(w != idx);
            assert(s[w].0 == kk);
            assert(entry_index(s, kk) == w);
        }
    }
    assert(map_of(s2) =~= map_of(s).insert(k, v));
}

/// Removing the entry at a slot removes its key from the map.
proof fn lemma_map_remove_at(s: Seq<(Seq<u8>, Seq<u8>)>, idx: int)
    requires
        sorted_entries(s),
        0 <= idx < s.len(),
    ensures
        sorted_entries(s.remove(idx)),
        map_of(s.remove(idx)) == map_of(s).remove(s[idx].0),
{
    let k = s[idx].0;
    let s2 = s.remove(idx);
    assert(s2.len() == s.len() - 1);
    assert(forall|i: int| 0 <= i < idx ==> s2[i] == #[trigger] s[i]);
    assert(forall|i: int| idx <= i < s2.len() ==> s2[i] == #[trigger] s[i + 1]);
    assert(sorted_entries(s2));
    lemma_sorted_distinct(s2);
    lemma_sorted_distinct(s);
    assert forall|kk: Seq<u8>| has_key(s2, kk) implies has_key(s, kk) && kk != k by {
        let w = choose|i: int| 0 <= i < s2.len() && (#[trigger] s2[i]).0 == kk;
        if w < idx {
            assert(s[w].0 == kk);
        } else {
            assert(s[w + 1].0 == kk);
        }
    }
    assert forall|kk: Seq<u8>| has_key(s, kk) && kk != k implies has_key(s2, kk) by {
        let w = choose|i: int| 0 <= i < s.len() && (#[trigger] s[i]).0 == kk;
        assert(w != idx);
        if w < idx {
            assert(s2[w].0 == kk);
        } else {
            assert(s2[w - 1].0 == kk);
        }
    }
    assert forall|kk: Seq<u8>| #[trigger] map_of(s2).dom().contains(kk) implies map_of(s2)[kk]
        == map_of(s).remove(k)[kk] by {
        let w = entry_index(s2, kk);
        assert(0 <= w < s2.len() && s2[w].0 == kk);
        if w < idx {
            assert(s[w].0 == kk);
            assert(entry_index(s, kk) == w);
        } else {
            assert(s[w + 1].0 == kk);
            assert(entry_index(s, kk) == w + 1);
        }
    }
    assert(map_of(s2) =~= map_of(s).remove(k));
}

/// A strictly sorted entry list is determined by the map it represents.
pub proof fn lemma_sorted_map_unique(s1: Seq<(Seq<u8>, Seq<u8>)>, s2: Seq<(Seq<u8>, Seq<u8>)>)
    requires
        sorted_entries(s1),
        sorted_entries(s2),
        map_of(s1) == map_of(s2),
    ensures
        s1 == s2,
    decreases s1.len(),
{
    lemma_sorted_distinct(s1);
    lemma_sorted_distinct(s2);
    if s1.len() == 0 {
        if s2.len() > 0 {
            assert(has_key(s2, s2[0].0));
            assert(map_of(s2).dom().contains(s2[0].0));
            assert(map_of(s1).dom().contains(s2[0].0));
            assert(false);
        }
        assert(s1 =~= s2);
    } else if s2.len() == 0 {
        assert(has_key(s1, s1[0].0));
        assert(map_of(s1).dom().contains(s1[0].0));
        assert(map_of(s2).dom().contains(s1[0].0));
        assert(false);
    } else {
        let h1 = s1[0].0;
        let h2 = s2[0].0;
        // Both heads carry the minimum key of the shared map, so they agree.
        assert(map_of(s1).dom().contains(h1));
        assert(map_of(s2).dom().contains(h1));
        let j = choose|i: int| 0 <= i < s2.len() && (#[trigger] s2[i]).0 == h1;
        assert(map_of(s2).dom().contains(h2));
        assert(map_of(s1).dom().contains(h2));
        let i0 = choose|i: int| 0 <= i < s1.len() && (#[trigger] s1[i]).0 == h2;
        if h1 != h2 {
            assert(j != 0);
            assert(lex_lt(h2, h1));
            assert(i0 != 0);
            assert(lex_lt(h1, h2));
            lemma_lex_asymmetric(h1, h2);
            assert(false);
        }
        assert(entry_index(s1, h1) == 0);
        assert(entry_index(s2, h1) == 0);
        assert(map_of(s1)[h1] == s1[0].1);
        assert(map_of(s2)[h1] == s2[0].1);
        assert(s1[0] == s2[0]);
        let t1 = s1.remove(0);
        let t2 = s2.remove(0);
        lemma_map_remove_at(s1, 0);
        lemma_map_remove_at(s2, 0);
        assert(map_of(t1) == map_of(t2));
        lemma_sorted_map_unique(t1, t2);
        assert(s1.len() == s2.len());
        assert forall|i: int| 0 <= i < s1.len() implies s1[i] == s2[i] by {
            if i > 0 {
                assert(s1[i] == t1[i - 1]);
                assert(s2[i] == t2[i - 1]);
            }
        }
        assert(s1 =~= s2);
    }
}

/// Byte keys and their nibble expansions sort identically, so a sorted
/// byte-keyed list yields a sorted, valid nibble-keyed list.
pub proof fn lemma_nib_entries_wf(s: Seq<(Seq<u8>, Seq<u8>)>)
    requires
        sorted_entries(s),
    ensures
        sorted_entries(nib_entries_of(s)),
        valid_entries(nib_entries_of(s)),
{
    let n = nib_entries_of(s);
    assert forall|i: int, j: int| 0 <= i < j < n.len() implies lex_lt(
        #[trigger] n[i].0,
        #[trigger] n[j].0,
    ) by {
        lemma_nibble_order(s[i].0, s[j].0);
    }
    assert forall|i: int, j: int|
        0 <= i < n.len() && 0 <= j < n[i].0.len() implies #[trigger] n[i].0[j] < 16 by {
        lemma_nibbles_of_bytes_form(s[i].0);
        assert(nibbles_valid(n[i].0));
    }
}

/// Whether `a` sorts strictly before `b`.
fn lt_bytes(a: &[u8], b: &[u8]) -> (r: bool)
    ensures
        r == lex_lt(a@, b@),
{
    let mut n: usize = 0;
    while n < a.len() && n < b.len() && a[n] == b[n]
        invariant
            0 <= n <= a@.len(),
            n <= b@.len(),
            forall|i: int| 0 <= i < n ==> a@[i] == b@[i],
        decreases a@.len() - n,
    {
        n = n + 1;
    }
    proof {
        lemma_lex_lt_at(a@, b@, n as int);
    }
    if n < b.len() {
        if n == a.len() {
            true
        } else {
            a[n] < b[n]
        }
    } else {
        false
    }
}

/// Whether `a` and `b` hold the same bytes.
fn eq_bytes(a: &[u8], b: &[u8]) -> (r: bool)
    ensures
        r == (a@ == b@),
{
    if a.len() != b.len() {
        return false;
    }
    let mut n: usize = 0;
    while n < a.len()
        invariant
            0 <= n <= a@.len(),
            a@.len() == b@.len(),
            forall|i: int| 0 <= i < n ==> a@[i] == b@[i],
        decreases a@.len() - n,
    {
        if a[n] != b[n] {
            return false;
        }
        n = n + 1;
    }
    proof {
        assert(a@ =~= b@);
    }
    true
}

/// Copies a byte slice into an owned vector.
fn copy_slice(v: &[u8]) -> (r: Vec<u8>)
    ensures
        r@ == v@,
{
    let mut r: Vec<u8> = Vec::new();
    let mut j: usize = 0;
    while j < v.len()
        invariant
            0 <= j <= v@.len(),
            r@ == v@.subrange(0, j as int),
        decreases v@.len() - j,
    {
        r.push(v[j]);
        assert(r@ =~= v@.subrange(0, j + 1));
        j = j + 1;
    }
    assert(r@ =~= v@);
    r
}

/// The nibble expansion of a byte key.
fn nibble_bytes(bytes: &Vec<u8>) -> (r: Vec<u8>)
    ensures
        r@ == nibbles_of_bytes(bytes@),
{
    let mut r: Vec<u8> = Vec::new();
    let mut j: usize = 0;
    while j < bytes.len()
        invariant
            0 <= j <= bytes@.len(),
            r@ == nibbles_of_bytes(bytes@.subrange(0, j as int)),
        decreases bytes@.len() - j,
    {
        let b = bytes[j];
        r.push(b / 16);
        r.push(b % 16);
        proof {
            let pre = bytes@.subrange(0, j + 1);
            lemma_nibbles_of_bytes_snoc(pre);
            assert(pre.drop_last() =~= bytes@.subrange(0, j as int));
            assert(r@ =~= nibbles_of_bytes(bytes@.subrange(0, j as int)) + seq![b / 16, b % 16]);
        }
        j = j + 1;
    }
    proof {
        assert(bytes@.subrange(0, bytes@.len() as int) =~= bytes@);
    }
    r
}

/// The first slot whose key does not sort before `key`.
fn find_slot(entries: &Vec<(Vec<u8>, Vec<u8>)>, key: &[u8]) -> (idx: usize)
    ensures
        0 <= idx <= entries@.len(),
        forall|j: int| 0 <= j < idx ==> lex_lt(entries_view(entries@)[j].0, key@),
        idx < entries@.len() ==> !lex_lt(entries_view(entries@)[idx as int].0, key@),
{
    let mut idx: usize = 0;
    while idx < entries.len() && lt_bytes(entries[idx].0.as_slice(), key)
        invariant
            0 <= idx <= entries@.len(),
            forall|j: int| 0 <= j < idx ==> lex_lt(entries_view(entries@)[j].0, key@),
        decreases entries@.len() - idx,
    {
        proof {
            assert(entries_view(entries@)[idx as int].0 == entries@[idx as int].0@);
        }
        idx = idx + 1;
    }
    proof {
        if idx < entries.len() {
            assert(entries_view(entries@)[idx as int].0 == entries@[idx as int].0@);
        }
    }
    idx
}

/// Radix-16 Merkle-Patricia trie: a key/value store committed to by a
/// 32-byte Merkle root.
pub struct Trie {
    /// The entries, sorted lexicographically by key, one entry per key.
    entries: Vec<(Vec<u8>, Vec<u8>)>,
}

impl View for Trie {
    type V = Map<Seq<u8>, Seq<u8>>;

    open spec fn view(&self) -> Map<Seq<u8>, Seq<u8>> {
        map_of(self.entry_seq())
    }
}

impl Trie {
    /// The entries as a sorted sequence of key/value pairs.
    pub closed spec fn entry_seq(self) -> Seq<(Seq<u8>, Seq<u8>)> {
        entries_view(self.entries@)
    }

    /// The entries are strictly sorted by key.
    pub open spec fn wf(self) -> bool {
        sorted_entries(self.entry_seq())
    }

    /// The pre-hash canonical encoding of this trie's root node.
    pub open spec fn root_encoding(self) -> Seq<u8> {
        subtrie_encoding(nib_entries_of(self.entry_seq()))
    }

    /// Builds a new empty trie.
    pub fn new() -> (r: Trie)
        ensures
            r.wf(),
            r@ == Map::<Seq<u8>, Seq<u8>>::empty(),
    {
        let t = Trie { entries: Vec::new() };
        proof {
            assert(t@ =~= Map::<Seq<u8>, Seq<u8>>::empty());
        }
        t
    }

    /// Inserts an entry, replacing any previous value under the same key.
    pub fn insert(&mut self, key: &[u8], value: Vec<u8>)
        requires
            old(self).wf(),
        ensures
            final(self).wf(),
            final(self)@ == old(self)@.insert(key@, value@),
    {
        let ghost s = self.entry_seq();
        let k = copy_slice(key);
        let idx = find_slot(&self.entries, key);
        if idx < self.entries.len() && eq_bytes(self.entries[idx].0.as_slice(), key) {
            proof {
                assert(s[idx as int].0 == key@);
                lemma_map_update_at(s, idx as int, value@);
            }
            self.entries[idx] = (k, value);
            proof {
                assert(self.entry_seq() =~~= s.update(idx as int, (key@, value@)));
                assert(s.update(idx as int, (key@, value@)) == s.update(
                    idx as int,
                    (s[idx as int].0, value@),
                ));
            }
        } else {
            proof {
                if idx < self.entries@.len() {
                    assert(s[idx as int].0 != key@);
                    lemma_lex_connected(s[idx as int].0, key@);
                    assert(lex_lt(key@, s[idx as int].0));
                }
                assert forall|j: int| idx <= j < s.len() implies lex_lt(
                    key@,
                    (#[trigger] s[j]).0,
                ) by {
                    if j > idx {
                        lemma_lex_transitive(key@, s[idx as int].0, s[j].0);
                    }
                }
                lemma_map_insert_at(s, idx as int, key@, value@);
            }
            self.entries.insert(idx, (k, value));
            proof {
                assert(self.entry_seq() =~~= s.insert(idx as int, (key@, value@)));
            }
        }
    }

    /// Removes an entry. Returns the value previously stored under `key`, or
    /// `None` (leaving the trie untouched) when the key is absent.
    pub fn remove(&mut self, key: &[u8]) -> (r: Option<Vec<u8>>)
        requires
            old(self).wf(),
        ensures
            final(self).wf(),
            old(self)@.contains_key(key@) ==> final(self)@ == old(self)@.remove(key@) && (
            r matches Option::Some(v) && v@ == old(self)@[key@]),
            !old(self)@.contains_key(key@) ==> (r matches Option::None) && *final(self) == *old(
                self,
            ),
    {
        let ghost s = self.entry_seq();
        proof {
            lemma_sorted_distinct(s);
        }
        let idx = find_slot(&self.entries, key);
        if idx < self.entries.len() && eq_bytes(self.entries[idx].0.as_slice(), key) {
            proof {
                assert(s[idx as int].0 == key@);
                assert(has_key(s, key@));
                assert(entry_index(s, key@) == idx as int);
                lemma_map_remove_at(s, idx as int);
            }
            let e = self.entries.remove(idx);
            proof {
                assert(self.entry_seq() =~~= s.remove(idx as int));
            }
            Some(e.1)
        } else {
            proof {
                assert forall|w: int| 0 <= w < s.len() implies (#[trigger] s[w]).0 != key@ by {
                    if w < idx {
                        lemma_lex_asymmetric(s[w].0, key@);
                    } else if w > idx {
                        assert(lex_lt(s[idx as int].0, s[w].0));
                        if s[w].0 == key@ {
                            lemma_lex_connected(s[idx as int].0, key@);
                            lemma_lex_asymmetric(key@, s[idx as int].0);
                            assert(false);
                        }
                    } else if w == idx && idx < s.len() {
                        if s[w].0 == key@ {
                            lemma_lex_irreflexive(key@);
                        }
                    }
                }
                assert(!has_key(s, key@));
            }
            None
        }
    }

    /// Whether the trie holds no entries.
    pub fn is_empty(&self) -> (r: bool)
        ensures
            r == (self@ == Map::<Seq<u8>, Seq<u8>>::empty()),
    {
        let r = self.entries.len() == 0;
        proof {
            if r {
                assert(self@ =~= Map::<Seq<u8>, Seq<u8>>::empty());
            } else {
                assert(has_key(self.entry_seq(), self.entry_seq()[0].0));
                assert(self@.dom().contains(self.entry_seq()[0].0));
            }
        }
        r
    }

    /// Removes every entry.
    pub fn clear(&mut self)
        ensures
            final(self).wf(),
            final(self)@ == Map::<Seq<u8>, Seq<u8>>::empty(),
    {
        self.entries.clear();
        proof {
            assert(self@ =~= Map::<Seq<u8>, Seq<u8>>::empty());
        }
    }

    /// The entries with byte keys replaced by nibble keys.
    fn to_nibble_entries(&self) -> (r: Vec<(Vec<u8>, Vec<u8>)>)
        ensures
            entries_view(r@) == nib_entries_of(self.entry_seq()),
    {
        let mut r: Vec<(Vec<u8>, Vec<u8>)> = Vec::new();
        let mut j: usize = 0;
        while j < self.entries.len()
            invariant
                0 <= j <= self.entries@.len(),
                entries_view(r@) == nib_entries_of(self.entry_seq()).subrange(0, j as int),
            decreases self.entries@.len() - j,
        {
            let key = nibble_bytes(&self.entries[j].0);
            let val = copy_slice(self.entries[j].1.as_slice());
            let ghost rhead = r@;
            r.push((key, val));
            proof {
                let s = self.entry_seq();
                let n = nib_entries_of(s);
                assert(s[j as int] == (self.entries@[j as int].0@, self.entries@[j as int].1@));
                assert(n[j as int] == (nibbles_of_bytes(s[j as int].0), s[j as int].1));
                assert(r@ == rhead.push((key, val)));
                assert(entries_view(rhead) == n.subrange(0, j as int));
                assert(entries_view(rhead).len() == rhead.len());
                assert(entries_view(r@)[j as int] == (key@, val@));
                assert(entries_view(r@) =~~= n.subrange(0, j + 1));
            }
            j = j + 1;
        }
        proof {
            assert(nib_entries_of(self.entry_seq()).subrange(
                0,
                self.entries@.len() as int,
            ) =~= nib_entries_of(self.entry_seq()));
        }
        r
    }

    /// Computes the Merkle value of the root node: the 32-byte digest of the
    /// root's canonical encoding (the root is always hashed).
    pub fn root_merkle_value(&self) -> (r: [u8; 32])
        requires
            self.wf(),
        ensures
            r@ == blake2b_256(self.root_encoding()),
    {
        let nibs = self.to_nibble_entries();
        proof {
            lemma_nib_entries_wf(self.entry_seq());
        }
        let enc = encode_subtrie(&nibs);
        blake2b_256_hash(enc.as_slice())
    }

    /// Computes the canonical pre-hash encoding of the node whose position is
    /// `parent_key ++ child_index ++ partial_key` and whose partial key is
    /// `partial_key`, over the current entries.
    pub fn node_value(
        &self,
        parent_key: TrieNodeKey,
        child_index: Option<Nibble>,
        partial_key: TrieNodeKey,
    ) -> (r: Vec<u8>)
        requires
            self.wf(),
            nibbles_valid(parent_key@),
            nibbles_valid(partial_key@),
            child_index matches Option::Some(n) ==> n.0 < 16,
        ensures
            r@ == node_value_spec(
                nib_entries_of(self.entry_seq()),
                parent_key@ + opt_nibble_seq(child_index),
                partial_key@,
            ),
    {
        let nibs = self.to_nibble_entries();
        let ghost nv = nib_entries_of(self.entry_seq());
        proof {
            lemma_nib_entries_wf(self.entry_seq());
        }
        // The node's position plus its partial key, as raw nibble values.
        let mut prefix: Vec<u8> = Vec::new();
        let mut j: usize = 0;
        while j < parent_key.nibbles.len()
            invariant
                0 <= j <= parent_key.nibbles@.len(),
                prefix@ == parent_key@.subrange(0, j as int),
            decreases parent_key.nibbles@.len() - j,
        {
            prefix.push(parent_key.nibbles[j].0);
            assert(prefix@ =~= parent_key@.subrange(0, j + 1));
            j = j + 1;
        }
        proof {
            assert(prefix@ =~= parent_key@);
        }
        if let Some(n) = child_index {
            prefix.push(n.0);
        }
        let ghost position = parent_key@ + opt_nibble_seq(child_index);
        proof {
            assert(prefix@ =~= position);
        }
        let mut pk: Vec<u8> = Vec::new();
        let mut t: usize = 0;
        while t < partial_key.nibbles.len()
            invariant
                0 <= t <= partial_key.nibbles@.len(),
                pk@ == partial_key@.subrange(0, t as int),
            decreases partial_key.nibbles@.len() - t,
        {
            pk.push(partial_key.nibbles[t].0);
            assert(pk@ =~= partial_key@.subrange(0, t + 1));
            t = t + 1;
        }
        proof {
            assert(pk@ =~= partial_key@);
        }
        let mut full: Vec<u8> = copy_slice(prefix.as_slice());
        let mut pk2: Vec<u8> = copy_slice(pk.as_slice());
        full.append(&mut pk2);
        proof {
            assert(full@ == position + partial_key@);
        }
        // The entries under the node, with position and partial key stripped.
        let mut rest: Vec<(Vec<u8>, Vec<u8>)> = Vec::new();
        let mut m: usize = 0;
        while m < nibs.len()
            invariant
                0 <= m <= nibs@.len(),
                entries_view(nibs@) == nv,
                full@ == position + partial_key@,
                entries_view(rest@) == strip_prefix_len(
                    entries_with_prefix(nv.subrange(0, m as int), full@),
                    full@.len() as int,
                ),
            decreases nibs@.len() - m,
        {
            proof {
                assert(nv[m as int] == (nibs@[m as int].0@, nibs@[m as int].1@));
            }
            let ghost rhead = rest@;
            let ghost lpfx = full@.len() as int;
            let ghost ep0 = entries_with_prefix(nv.subrange(0, m as int), full@);
            if starts_with_nibbles(&nibs[m].0, &full) {
                let key = copy_suffix(&nibs[m].0, full.len());
                let val = copy_slice(nibs[m].1.as_slice());
                rest.push((key, val));
                proof {
                    assert(rest@ == rhead.push((key, val)));
                    assert(entries_view(rhead) == strip_prefix_len(ep0, lpfx));
                    assert(entries_view(rhead).len() == rhead.len());
                    assert(key@ == nv[m as int].0.skip(lpfx));
                    assert(val@ == nv[m as int].1);
                    assert(entries_view(rest@)[rhead.len() as int] == (key@, val@));
                    assert(strip_prefix_len(ep0.push(nv[m as int]), lpfx) =~~= strip_prefix_len(
                        ep0,
                        lpfx,
                    ).push((nv[m as int].0.skip(lpfx), nv[m as int].1)));
                    assert(entries_view(rest@) =~~= strip_prefix_len(ep0, lpfx).push((
                        nv[m as int].0.skip(lpfx),
                        nv[m as int].1,
                    )));
                    assert(entries_view(rest@) == strip_prefix_len(
                        ep0.push(nv[m as int]),
                        lpfx,
                    ));
                }
            }
            proof {
                let sub1 = nv.subrange(0, m + 1);
                assert(sub1.drop_last() =~= nv.subrange(0, m as int));
                assert(sub1.last() == nv[m as int]);
                assert(entries_with_prefix(sub1, full@) == if is_prefix_of(
                    full@,
                    nv[m as int].0,
                ) {
                    ep0.push(nv[m as int])
                } else {
                    ep0
                });
                assert(entries_view(rest@) == strip_prefix_len(
                    entries_with_prefix(sub1, full@),
                    lpfx,
                ));
            }
            m = m + 1;
        }
        proof {
            assert(nv.subrange(0, nv.len() as int) =~= nv);
            assert(valid_entries(entries_view(rest@))) by {
                let ep = entries_with_prefix(nv, full@);
                lemma_entries_with_prefix_valid(nv, full@);
                assert(forall|a: int, b: int|
                    0 <= a < ep.len() && 0 <= b < ep[a].0.len() - full@.len()
                        ==> #[trigger] entries_view(rest@)[a].0[b] == ep[a].0[b
                        + full@.len()]);
            }
        }
        let r = encode_node(&pk, &rest);
        proof {
            assert(r@ == node_value_spec(nv, position, partial_key@));
        }
        r
    }
}

/// Entries selected by a prefix keep their nibble validity and key bounds.
proof fn lemma_entries_with_prefix_valid(s: Seq<(Seq<u8>, Seq<u8>)>, p: Seq<u8>)
    requires
        valid_entries(s),
    ensures
        valid_entries(entries_with_prefix(s, p)),
        forall|i: int|
            0 <= i < entries_with_prefix(s, p).len() ==> p.len() <= (
            #[trigger] entries_with_prefix(s, p)[i]).0.len(),
    decreases s.len(),
{
    if s.len() > 0 {
        assert(valid_entries(s.drop_last())) by {
            assert(forall|a: int, b: int|
                0 <= a < s.drop_last().len() && 0 <= b < s.drop_last()[a].0.len()
                    ==> #[trigger] s.drop_last()[a].0[b] == s[a].0[b]);
        }
        lemma_entries_with_prefix_valid(s.drop_last(), p);
        let e = entries_with_prefix(s, p);
        let ep = entries_with_prefix(s.drop_last(), p);
        if is_prefix_of(p, s.last().0) {
            assert(e == ep.push(s.last()));
            assert(forall|a: int| 0 <= a < ep.len() ==> e[a] == ep[a]);
            assert(s.last() == s[s.len() - 1]);
            assert(forall|b: int|
                0 <= b < s.last().0.len() ==> #[trigger] s.last().0[b] == s[s.len() - 1].0[b]);
            assert(forall|a: int, b: int|
                0 <= a < e.len() && 0 <= b < e[a].0.len() ==> #[trigger] e[a].0[b] < 16);
        }
    }
}

/// Whether `k` starts with the nibbles of `p`.
fn starts_with_nibbles(k: &Vec<u8>, p: &Vec<u8>) -> (r: bool)
    ensures
        r == is_prefix_of(p@, k@),
{
    if p.len() > k.len() {
        return false;
    }
    let mut n: usize = 0;
    while n < p.len()
        invariant
            0 <= n <= p@.len(),
            p@.len() <= k@.len(),
            forall|i: int| 0 <= i < n ==> p@[i] == k@[i],
        decreases p@.len() - n,
    {
        if p[n] != k[n] {
            return false;
        }
        n = n + 1;
    }
    true
}

/// Law: the Merkle root is a pure function of the key/value contents. Two
/// well-formed tries holding the same map have the same entries and hence
/// the same root encoding, whatever order built them.
pub proof fn lemma_root_deterministic(a: Trie, b: Trie)
    requires
        a.wf(),
        b.wf(),
        a@ == b@,
    ensures
        a.entry_seq() == b.entry_seq(),
        a.root_encoding() == b.root_encoding(),
{
    lemma_sorted_map_unique(a.entry_seq(), b.entry_seq());
}

/// Law: a trie holding no entries has the single byte 0 as its pre-hash
/// root encoding.
pub proof fn lemma_empty_trie_encoding(t: Trie)
    requires
        t.wf(),
        t@ == Map::<Seq<u8>, Seq<u8>>::empty(),
    ensures
        t.root_encoding() == seq![0u8],
{
    let s = t.entry_seq();
    if s.len() > 0 {
        assert(has_key(s, s[0].0));
        assert(t@.dom().contains(s[0].0));
        assert(false);
    }
    assert(nib_entries_of(s) =~= Seq::<(Seq<u8>, Seq<u8>)>::empty());
}

/// Law (one case of sensitivity): a trie that holds at least one entry
/// never has the empty trie's root encoding; its first encoded byte always
/// carries a node kind.
pub proof fn lemma_nonempty_trie_encoding(t: Trie)
    requires
        t.wf(),
        t@ != Map::<Seq<u8>, Seq<u8>>::empty(),
    ensures
        t.root_encoding() != seq![0u8],
{
    let s = t.entry_seq();
    if s.len() == 0 {
        assert(t@ =~= Map::<Seq<u8>, Seq<u8>>::empty());
        assert(false);
    }
    lemma_nib_entries_wf(s);
    let ns = nib_entries_of(s);
    let pk = lcp_all(keys_of(ns));
    crate::nibble::lemma_lcp_all_prefix(keys_of(ns));
    assert(forall|i: int| 0 <= i < ns.len() ==> pk.len() <= (#[trigger] ns[i]).0.len()) by {
        assert(forall|i: int| 0 <= i < ns.len() ==> keys_of(ns)[i] == (#[trigger] ns[i]).0);
    }
    let rest = strip_prefix_len(ns, pk.len() as int);
    crate::encode::lemma_strip_valid(ns, pk.len() as int);
    assert(t.root_encoding() == node_encoding(pk, rest));
    let hv = rest.len() > 0 && rest[0].0.len() == 0;
    let mask = child_mask(rest);
    if !hv {
        assert(rest[0].0.len() > 0);
        crate::encode::lemma_child_mask_nonzero(rest, 0);
    }
    let kind = crate::encode::header_kind(hv, mask != 0);
    assert(kind >= 0x40);
    let h = header_encoding(hv, mask != 0, pk.len());
    assert(h.len() >= 1 && h[0] >= 0x40) by {
        if pk.len() < 63 {
            assert(h[0] == (kind + pk.len()) as u8);
        } else {
            assert(h[0] == (kind + 63) as u8);
        }
    }
    assert(node_encoding(pk, rest)[0] == h[0]);
    assert(seq![0u8][0] == 0u8);
    if t.root_encoding() == seq![0u8] {
        assert(false);
    }
}

/// The root encoding of a trie holding a single entry: a leaf node carrying
/// the key's nibbles and the length-prefixed value.
proof fn lemma_single_entry_encoding(k: Seq<u8>, v: Seq<u8>)
    ensures
        subtrie_encoding(nib_entries_of(seq![(k, v)])) == header_encoding(
            true,
            false,
            nibbles_of_bytes(k).len(),
        ) + pack_nibbles(nibbles_of_bytes(k)) + compact_encoding(v.len() as u64) + v,
{
    let nk = nibbles_of_bytes(k);
    let s = seq![(k, v)];
    let n = nib_entries_of(s);
    assert(n =~~= seq![(nk, v)]);
    assert(keys_of(n) =~= seq![nk]);
    assert(lcp_all(keys_of(n)) == nk);
    let rest = strip_prefix_len(n, nk.len() as int);
    assert(rest =~~= seq![(Seq::<u8>::empty(), v)]) by {
        assert(nk.skip(nk.len() as int) =~= Seq::<u8>::empty());
    }
    assert(forall|a: int| 0 <= a < rest.len() ==> (#[trigger] rest[a]).0.len() == 0);
    lemma_child_entries_empty_keys(rest, 0);
    lemma_children_encoding_empty_keys(rest, 0);
    assert(rest.len() > 0 && rest[0].0.len() == 0);
    assert(child_mask(rest) == 0u16);
    assert(rest[0].1 == v);
    assert(subtrie_encoding(n) == node_encoding(nk, rest));
    assert(node_encoding(nk, rest) =~= header_encoding(true, false, nk.len()) + pack_nibbles(nk)
        + compact_encoding(v.len() as u64) + v);
}

/// Law (one case of sensitivity): two tries that hold one and the same key
/// but different values have different pre-hash root encodings. The roots
/// are the digests of these encodings, so they differ whenever the digest
/// function does not collide on them.
pub proof fn lemma_single_entry_value_sensitivity(k: Seq<u8>, v1: Seq<u8>, v2: Seq<u8>)
    requires
        v1 != v2,
        v1.len() < 0x1_0000_0000_0000_0000,
        v2.len() < 0x1_0000_0000_0000_0000,
    ensures
        subtrie_encoding(nib_entries_of(seq![(k, v1)])) != subtrie_encoding(
            nib_entries_of(seq![(k, v2)]),
        ),
{
    let nk = nibbles_of_bytes(k);
    let pre = header_encoding(true, false, nk.len()) + pack_nibbles(nk);
    lemma_single_entry_encoding(k, v1);
    lemma_single_entry_encoding(k, v2);
    let c1 = compact_encoding(v1.len() as u64);
    let c2 = compact_encoding(v2.len() as u64);
    let e1 = pre + c1 + v1;
    let e2 = pre + c2 + v2;
    assert(subtrie_encoding(nib_entries_of(seq![(k, v1)])) =~= e1);
    assert(subtrie_encoding(nib_entries_of(seq![(k, v2)])) =~= e2);
    lemma_compact_len(v1.len() as u64);
    lemma_compact_len(v2.len() as u64);
    if v1.len() == v2.len() {
        if e1 == e2 {
            assert(c1 == c2);
            assert forall|i: int| 0 <= i < v1.len() implies v1[i] == v2[i] by {
                assert(e1[pre.len() + c1.len() + i] == v1[i]);
                assert(e2[pre.len() + c2.len() + i] == v2[i]);
            }
            assert(v1 =~= v2);
            assert(false);
        }
    } else {
        if v1.len() < v2.len() {
            assert(c1.len() <= c2.len());
        } else {
            assert(c2.len() <= c1.len());
        }
        assert(e1.len() != e2.len());
    }
}

/// Law: removing a present key and reinserting the same key/value pair
/// restores the map, and with it the root encoding.
pub proof fn lemma_remove_reinsert_restores_root(t0: Trie, t1: Trie, t2: Trie, k: Seq<u8>)
    requires
        t0.wf(),
        t1.wf(),
        t2.wf(),
        t0@.contains_key(k),
        t1@ == t0@.remove(k),
        t2@ == t1@.insert(k, t0@[k]),
    ensures
        t2@ == t0@,
        t2.root_encoding() == t0.root_encoding(),
{
    assert(t2@ =~= t0@);
    lemma_root_deterministic(t2, t0);
}

} // verus!
