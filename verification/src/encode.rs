//! Canonical node encoding and the recursive Merkle encoding engine.
//!
//! A subtrie is described by the list of its entries, sorted by key, with
//! the nibbles already consumed by ancestors stripped off. Its encoding is:
//! a header byte (node kind and partial-key length, with continuation bytes
//! for long partial keys), the packed partial-key nibbles, a two-byte
//! little-endian children bitmap for branches, the compact-length-prefixed
//! own value if any, and the compact-length-prefixed child references in
//! ascending child-slot order. A child reference is the child's own encoding
//! when shorter than 32 bytes, and its 32-byte digest otherwise.

use vstd::prelude::*;

use crate::codec::blake2b_256;
use crate::codec::blake2b_256_hash;
use crate::codec::compact_encode_u64;
use crate::codec::compact_encoding;
use crate::nibble::is_prefix_of;
use crate::nibble::lcp2;
use crate::nibble::lcp_all;
use crate::nibble::lemma_lcp2_at;
use crate::nibble::lemma_lcp_all_prefix;
use crate::nibble::nibbles_valid;

verus! {

/// The mathematical contents of an entry list: each entry as its key's
/// nibble sequence paired with its value bytes.
pub open spec fn entries_view(s: Seq<(Vec<u8>, Vec<u8>)>) -> Seq<(Seq<u8>, Seq<u8>)> {
    s.map_values(|e: (Vec<u8>, Vec<u8>)| (e.0@, e.1@))
}

/// Every key nibble of every entry is a meaningful nibble value.
pub open spec fn valid_entries(s: Seq<(Seq<u8>, Seq<u8>)>) -> bool {
    forall|i: int, j: int|
        0 <= i < s.len() && 0 <= j < s[i].0.len() ==> #[trigger] s[i].0[j] < 16
}

/// The keys of an entry list.
pub open spec fn keys_of(s: Seq<(Seq<u8>, Seq<u8>)>) -> Seq<Seq<u8>> {
    s.map_values(|e: (Seq<u8>, Seq<u8>)| e.0)
}

/// The length of the longest key in an entry list.
pub open spec fn max_klen(s: Seq<(Seq<u8>, Seq<u8>)>) -> nat
    decreases s.len(),
{
    if s.len() == 0 {
        0
    } else {
        let m = max_klen(s.drop_last());
        if s.last().0.len() > m {
            s.last().0.len()
        } else {
            m
        }
    }
}

/// The entries of child slot `i`: those whose key starts with nibble `i`,
/// with that nibble stripped.
pub open spec fn child_entries(s: Seq<(Seq<u8>, Seq<u8>)>, i: u8) -> Seq<(Seq<u8>, Seq<u8>)>
    decreases s.len(),
{
    if s.len() == 0 {
        Seq::empty()
    } else {
        let r = child_entries(s.drop_last(), i);
        if s.last().0.len() > 0 && s.last().0[0] == i {
            r.push((s.last().0.skip(1), s.last().1))
        } else {
            r
        }
    }
}

/// The children bitmap: bit `i` is set iff some entry's key starts with
/// nibble `i`.
pub open spec fn child_mask(s: Seq<(Seq<u8>, Seq<u8>)>) -> u16
    decreases s.len(),
{
    if s.len() == 0 {
        0u16
    } else {
        child_mask(s.drop_last()) | (if s.last().0.len() > 0 {
            1u16 << (s.last().0[0] as u16)
        } else {
            0u16
        })
    }
}

/// Every entry with the first `n` nibbles of its key removed.
pub open spec fn strip_prefix_len(s: Seq<(Seq<u8>, Seq<u8>)>, n: int) -> Seq<(Seq<u8>, Seq<u8>)> {
    s.map_values(|e: (Seq<u8>, Seq<u8>)| (e.0.skip(n), e.1))
}

/// The entries whose key has `p` as a prefix.
pub open spec fn entries_with_prefix(s: Seq<(Seq<u8>, Seq<u8>)>, p: Seq<u8>) -> Seq<
    (Seq<u8>, Seq<u8>),
>
    decreases s.len(),
{
    if s.len() == 0 {
        Seq::empty()
    } else {
        let r = entries_with_prefix(s.drop_last(), p);
        if is_prefix_of(p, s.last().0) {
            r.push(s.last())
        } else {
            r
        }
    }
}

/// The two kind bits of the header byte, by whether the node carries a value
/// and whether it has children.
pub open spec fn header_kind(has_value: bool, has_children: bool) -> u8 {
    if has_value && has_children {
        0xc0
    } else if has_children {
        0x80
    } else if has_value {
        0x40
    } else {
        0x00
    }
}

/// Continuation bytes for a partial-key length too large for the header's
/// six low bits: bytes of 255 while more remains, then the remainder.
pub open spec fn header_cont(v: nat) -> Seq<u8>
    decreases v,
{
    if v >= 255 {
        seq![255u8] + header_cont((v - 255) as nat)
    } else {
        seq![v as u8]
    }
}

/// The header byte(s): kind bits plus the partial-key nibble count, with
/// continuation bytes when the count does not fit in six bits.
pub open spec fn header_encoding(has_value: bool, has_children: bool, pk_len: nat) -> Seq<u8> {
    if pk_len < 63 {
        seq![(header_kind(has_value, has_children) + pk_len) as u8]
    } else {
        seq![(header_kind(has_value, has_children) + 63) as u8] + header_cont((pk_len - 62) as nat)
    }
}

/// Nibbles packed two per byte, high nibble first.
pub open spec fn pack_pairs(pk: Seq<u8>) -> Seq<u8>
    decreases pk.len(),
{
    if pk.len() < 2 {
        Seq::empty()
    } else {
        seq![(pk[0] * 16 + pk[1]) as u8] + pack_pairs(pk.skip(2))
    }
}

/// The packed form of a partial key: an odd leading nibble stands alone in
/// its own byte, the rest are packed pairwise.
pub open spec fn pack_nibbles(pk: Seq<u8>) -> Seq<u8> {
    if pk.len() % 2 == 1 {
        seq![pk[0]] + pack_pairs(pk.skip(1))
    } else {
        pack_pairs(pk)
    }
}

/// How a child's encoding appears in its parent: inline when shorter than
/// 32 bytes and as its 32-byte digest otherwise, length-prefixed either way.
pub open spec fn child_ref_encoding(enc: Seq<u8>) -> Seq<u8> {
    let r = if enc.len() < 32 {
        enc
    } else {
        blake2b_256(enc)
    };
    compact_encoding(r.len() as u64) + r
}

pub proof fn lemma_max_klen_strip(s: Seq<(Seq<u8>, Seq<u8>)>, n: int)
    requires
        0 <= n,
        forall|i: int| 0 <= i < s.len() ==> n <= (#[trigger] s[i]).0.len(),
    ensures
        max_klen(strip_prefix_len(s, n)) <= max_klen(s),
    decreases s.len(),
{
    if s.len() > 0 {
        lemma_max_klen_strip(s.drop_last(), n);
        let t = strip_prefix_len(s, n);
        assert(t.drop_last() =~~= strip_prefix_len(s.drop_last(), n));
        assert(t.last().0.len() == s.last().0.len() - n);
    }
}

pub proof fn lemma_child_entries_max(s: Seq<(Seq<u8>, Seq<u8>)>, i: u8)
    requires
        child_entries(s, i).len() > 0,
    ensures
        max_klen(child_entries(s, i)) < max_klen(s),
    decreases s.len(),
{
    let c = child_entries(s, i);
    if s.len() > 0 {
        let cp = child_entries(s.drop_last(), i);
        if s.last().0.len() > 0 && s.last().0[0] == i {
            let x = (s.last().0.skip(1), s.last().1);
            assert(c == cp.push(x));
            assert(c.drop_last() =~= cp);
            assert(c.last() == x);
            assert(x.0.len() == s.last().0.len() - 1);
            assert(max_klen(c) == if x.0.len() > max_klen(cp) {
                x.0.len()
            } else {
                max_klen(cp)
            });
            if cp.len() > 0 {
                lemma_child_entries_max(s.drop_last(), i);
            }
            assert(s.last().0.len() <= max_klen(s));
            assert(max_klen(s.drop_last()) <= max_klen(s));
        } else {
            assert(c == cp);
            lemma_child_entries_max(s.drop_last(), i);
            assert(max_klen(s.drop_last()) <= max_klen(s));
        }
    }
}

pub proof fn lemma_child_entries_valid(s: Seq<(Seq<u8>, Seq<u8>)>, i: u8)
    requires
        valid_entries(s),
    ensures
        valid_entries(child_entries(s, i)),
    decreases s.len(),
{
    if s.len() > 0 {
        assert(valid_entries(s.drop_last())) by {
            assert(forall|a: int, b: int|
                0 <= a < s.drop_last().len() && 0 <= b < s.drop_last()[a].0.len()
                    ==> #[trigger] s.drop_last()[a].0[b] == s[a].0[b]);
        }
        lemma_child_entries_valid(s.drop_last(), i);
        let c = child_entries(s, i);
        let cp = child_entries(s.drop_last(), i);
        if s.last().0.len() > 0 && s.last().0[0] == i {
            let x = (s.last().0.skip(1), s.last().1);
            assert(forall|b: int| 0 <= b < x.0.len() ==> #[trigger] x.0[b] == s[s.len() - 1].0[b
                + 1]);
            assert(forall|a: int, b: int|
                0 <= a < c.len() && 0 <= b < c[a].0.len() ==> #[trigger] c[a].0[b] < 16) by {
                assert(forall|a: int| 0 <= a < cp.len() ==> c[a] == cp[a]);
            }
        }
    }
}

/// Stripping a common prefix keeps every nibble meaningful.
pub proof fn lemma_strip_valid(s: Seq<(Seq<u8>, Seq<u8>)>, n: int)
    requires
        valid_entries(s),
        0 <= n,
        forall|i: int| 0 <= i < s.len() ==> n <= (#[trigger] s[i]).0.len(),
    ensures
        valid_entries(strip_prefix_len(s, n)),
{
    let t = strip_prefix_len(s, n);
    assert forall|a: int, b: int|
        0 <= a < t.len() && 0 <= b < t[a].0.len() implies #[trigger] t[a].0[b] < 16 by {
        assert(t[a].0[b] == s[a].0[b + n]);
    }
}

/// A node one of whose entries continues below it has a non-empty children
/// bitmap.
pub proof fn lemma_child_mask_nonzero(rest: Seq<(Seq<u8>, Seq<u8>)>, a: int)
    requires
        valid_entries(rest),
        0 <= a < rest.len(),
        rest[a].0.len() > 0,
    ensures
        child_mask(rest) != 0u16,
    decreases rest.len(),
{
    let m = child_mask(rest.drop_last());
    if a == rest.len() - 1 {
        let c = rest.last().0[0];
        assert(c < 16);
        let cc = c as u16;
        let bit = 1u16 << cc;
        assert(bit != 0u16) by (bit_vector)
            requires
                bit == 1u16 << cc,
                cc < 16,
        ;
        assert((m | bit) != 0u16) by (bit_vector)
            requires
                bit != 0u16,
        ;
    } else {
        assert(valid_entries(rest.drop_last())) by {
            assert(forall|x: int, y: int|
                0 <= x < rest.drop_last().len() && 0 <= y < rest.drop_last()[x].0.len()
                    ==> #[trigger] rest.drop_last()[x].0[y] == rest[x].0[y]);
        }
        lemma_child_mask_nonzero(rest.drop_last(), a);
        let b = if rest.last().0.len() > 0 {
            1u16 << (rest.last().0[0] as u16)
        } else {
            0u16
        };
        assert((m | b) != 0u16) by (bit_vector)
            requires
                m != 0u16,
        ;
    }
}

/// A node whose entries all sit at the node itself has no child entries.
pub proof fn lemma_child_entries_empty_keys(rest: Seq<(Seq<u8>, Seq<u8>)>, c: u8)
    requires
        forall|a: int| 0 <= a < rest.len() ==> (#[trigger] rest[a]).0.len() == 0,
    ensures
        child_entries(rest, c) == Seq::<(Seq<u8>, Seq<u8>)>::empty(),
        child_mask(rest) == 0u16,
    decreases rest.len(),
{
    if rest.len() > 0 {
        assert(forall|a: int|
            0 <= a < rest.drop_last().len() ==> (#[trigger] rest.drop_last()[a]).0.len() == 0);
        lemma_child_entries_empty_keys(rest.drop_last(), c);
        assert(rest.last().0.len() == 0);
        assert(0u16 | 0u16 == 0u16) by (bit_vector);
    }
}

/// A node whose entries all sit at the node itself emits no child
/// references.
pub proof fn lemma_children_encoding_empty_keys(rest: Seq<(Seq<u8>, Seq<u8>)>, i: int)
    requires
        forall|a: int| 0 <= a < rest.len() ==> (#[trigger] rest[a]).0.len() == 0,
    ensures
        children_encoding(rest, i) == Seq::<u8>::empty(),
    decreases 16 - i,
{
    if 0 <= i < 16 {
        lemma_child_entries_empty_keys(rest, i as u8);
        lemma_children_encoding_empty_keys(rest, i + 1);
        assert(children_encoding(rest, i) =~= Seq::<u8>::empty());
    } else if i < 0 {
        assert(children_encoding(rest, i) == Seq::<u8>::empty());
    }
}

/// The canonical encoding of the subtrie holding `entries` (keys relative
/// to the node's position): the node's partial key is the longest common
/// prefix of the remaining keys. An empty subtrie encodes as the single
/// byte 0.
pub open spec fn subtrie_encoding(entries: Seq<(Seq<u8>, Seq<u8>)>) -> Seq<u8>
    decreases max_klen(entries), 2int, 0int,
{
    if entries.len() == 0 {
        seq![0u8]
    } else {
        let pk = lcp_all(keys_of(entries));
        {
            proof {
                lemma_lcp_all_prefix(keys_of(entries));
                assert(forall|i: int|
                    0 <= i < entries.len() ==> pk.len() <= (#[trigger] entries[i]).0.len()) by {
                    assert(forall|i: int|
                        0 <= i < entries.len() ==> keys_of(entries)[i] == (
                        #[trigger] entries[i]).0);
                }
                lemma_max_klen_strip(entries, pk.len() as int);
            }
            node_encoding(pk, strip_prefix_len(entries, pk.len() as int))
        }
    }
}

/// The canonical encoding of a node with partial key `pk` whose subtrie
/// entries (keys relative to the end of `pk`) are `rest`.
pub open spec fn node_encoding(pk: Seq<u8>, rest: Seq<(Seq<u8>, Seq<u8>)>) -> Seq<u8>
    decreases max_klen(rest), 1int, 0int,
{
    let has_value = rest.len() > 0 && rest[0].0.len() == 0;
    let mask = child_mask(rest);
    header_encoding(has_value, mask != 0, pk.len()) + pack_nibbles(pk) + (if mask != 0 {
        seq![(mask % 256) as u8, (mask / 256) as u8]
    } else {
        Seq::empty()
    }) + (if has_value {
        compact_encoding(rest[0].1.len() as u64) + rest[0].1
    } else {
        Seq::empty()
    }) + children_encoding(rest, 0)
}

/// The concatenated child references of slots `i..16`, in ascending order.
pub open spec fn children_encoding(rest: Seq<(Seq<u8>, Seq<u8>)>, i: int) -> Seq<u8>
    decreases max_klen(rest), 0int, 16 - i,
{
    if i < 0 || i >= 16 {
        Seq::empty()
    } else {
        let ch = child_entries(rest, i as u8);
        (if ch.len() > 0 {
            {
                proof {
                    lemma_child_entries_max(rest, i as u8);
                }
                child_ref_encoding(subtrie_encoding(ch))
            }
        } else {
            Seq::empty()
        }) + children_encoding(rest, i + 1)
    }
}

/// Copies `v[from..]`.
pub(crate) fn copy_suffix(v: &Vec<u8>, from: usize) -> (r: Vec<u8>)
    requires
        from <= v@.len(),
    ensures
        r@ == v@.skip(from as int),
{
    let mut r: Vec<u8> = Vec::new();
    let mut j: usize = from;
    while j < v.len()
        invariant
            from <= j <= v@.len(),
            r@ == v@.subrange(from as int, j as int),
        decreases v@.len() - j,
    {
        r.push(v[j]);
        assert(r@ =~= v@.subrange(from as int, j + 1));
        j = j + 1;
    }
    assert(r@ =~= v@.skip(from as int));
    r
}

/// The longest common prefix of two nibble strings.
fn lcp_pair_bytes(a: &Vec<u8>, b: &Vec<u8>) -> (r: Vec<u8>)
    ensures
        r@ == lcp2(a@, b@),
{
    let mut n: usize = 0;
    while n < a.len() && n < b.len() && a[n] == b[n]
        invariant
            0 <= n <= a@.len(),
            n <= b@.len(),
            forall|i: int| 0 <= i < n ==> a@[i] == b@[i],
        decreases a@.len() - n,
    {
        n = n + 1;
    }
    proof {
        lemma_lcp2_at(a@, b@, n as int);
    }
    let r = copy_suffix(a, 0);
    let mut r2 = r;
    r2.truncate(n);
    proof {
        assert(r2@ =~= a@.subrange(0, n as int));
    }
    r2
}

/// Collects the entries of child slot `i`.
fn filter_child(rest: &Vec<(Vec<u8>, Vec<u8>)>, i: u8) -> (r: Vec<(Vec<u8>, Vec<u8>)>)
    ensures
        entries_view(r@) == child_entries(entries_view(rest@), i),
{
    let mut r: Vec<(Vec<u8>, Vec<u8>)> = Vec::new();
    let mut j: usize = 0;
    while j < rest.len()
        invariant
            0 <= j <= rest@.len(),
            entries_view(r@) == child_entries(entries_view(rest@).subrange(0, j as int), i),
        decreases rest@.len() - j,
    {
        if rest[j].0.len() > 0 && rest[j].0[0] == i {
            let key = copy_suffix(&rest[j].0, 1);
            let val = copy_suffix(&rest[j].1, 0);
            proof {
                assert(val@ =~= rest@[j as int].1@);
            }
            r.push((key, val));
        }
        proof {
            let ev = entries_view(rest@);
            assert(ev[j as int] == (rest@[j as int].0@, rest@[j as int].1@));
            assert(ev.subrange(0, j + 1).drop_last() =~= ev.subrange(0, j as int));
            assert(ev.subrange(0, j + 1).last() == ev[j as int]);
            assert(entries_view(r@) =~~= child_entries(ev.subrange(0, j + 1), i));
        }
        j = j + 1;
    }
    proof {
        assert(entries_view(rest@).subrange(0, rest@.len() as int) =~= entries_view(rest@));
    }
    r
}

/// Computes the children bitmap of `rest`.
fn compute_child_mask(rest: &Vec<(Vec<u8>, Vec<u8>)>) -> (r: u16)
    requires
        valid_entries(entries_view(rest@)),
    ensures
        r == child_mask(entries_view(rest@)),
{
    let mut mask: u16 = 0;
    let mut j: usize = 0;
    while j < rest.len()
        invariant
            0 <= j <= rest@.len(),
            valid_entries(entries_view(rest@)),
            mask == child_mask(entries_view(rest@).subrange(0, j as int)),
        decreases rest@.len() - j,
    {
        if rest[j].0.len() > 0 {
            let n = rest[j].0[0];
            proof {
                assert(entries_view(rest@)[j as int].0[0] == n);
            }
            assert(n < 16);
            mask = mask | (1u16 << (n as u16));
        } else {
            proof {
                assert(mask | 0u16 == mask) by (bit_vector);
            }
        }
        proof {
            let ev = entries_view(rest@);
            assert(ev[j as int] == (rest@[j as int].0@, rest@[j as int].1@));
            assert(ev.subrange(0, j + 1).drop_last() =~= ev.subrange(0, j as int));
            assert(ev.subrange(0, j + 1).last() == ev[j as int]);
        }
        j = j + 1;
    }
    proof {
        assert(entries_view(rest@).subrange(0, rest@.len() as int) =~= entries_view(rest@));
    }
    mask
}

/// Appends the continuation bytes of a long partial-key length.
fn push_header_cont(out: &mut Vec<u8>, v0: usize)
    ensures
        final(out)@ == old(out)@ + header_cont(v0 as nat),
{
    let mut v: usize = v0;
    while v >= 255
        invariant
            v <= v0,
            out@ + header_cont(v as nat) == old(out)@ + header_cont(v0 as nat),
        decreases v,
    {
        out.push(255u8);
        v = v - 255;
        proof {
            assert(header_cont((v + 255) as nat) == seq![255u8] + header_cont(v as nat));
            assert(out@ + header_cont(v as nat) =~= old(out)@ + header_cont(v0 as nat));
        }
    }
    out.push(v as u8);
    proof {
        assert(header_cont(v as nat) == seq![v as u8]);
        assert(out@ =~= old(out)@ + header_cont(v0 as nat));
    }
}

/// Appends the packed nibbles of `pk`.
fn push_packed(out: &mut Vec<u8>, pk: &Vec<u8>)
    requires
        nibbles_valid(pk@),
    ensures
        final(out)@ == old(out)@ + pack_nibbles(pk@),
{
    let mut j: usize = 0;
    if pk.len() % 2 == 1 {
        out.push(pk[0]);
        j = 1;
        proof {
            assert(out@ + pack_pairs(pk@.skip(1)) =~= old(out)@ + pack_nibbles(pk@));
        }
    } else {
        proof {
            assert(pk@.skip(0) =~= pk@);
        }
    }
    while j < pk.len() && j + 1 < pk.len()
        invariant
            nibbles_valid(pk@),
            0 <= j <= pk@.len(),
            (pk@.len() - j) % 2 == 0,
            out@ + pack_pairs(pk@.skip(j as int)) == old(out)@ + pack_nibbles(pk@),
        decreases pk@.len() - j,
    {
        let b: u8 = pk[j] * 16 + pk[j + 1];
        out.push(b);
        proof {
            let t = pk@.skip(j as int);
            assert(t.len() >= 2);
            assert(t[0] == pk@[j as int]);
            assert(t[1] == pk@[j + 1]);
            assert(pack_pairs(t) == seq![b] + pack_pairs(t.skip(2)));
            assert(t.skip(2) =~= pk@.skip(j + 2));
            assert(out@ + pack_pairs(pk@.skip(j + 2)) =~= old(out)@ + pack_nibbles(pk@));
        }
        j = j + 2;
    }
    proof {
        assert(j == pk@.len());
        assert(pack_pairs(pk@.skip(j as int)) == Seq::<u8>::empty());
        assert(out@ =~= old(out)@ + pack_nibbles(pk@));
    }
}

/// Copies a 32-byte digest into a byte vector.
fn digest_to_vec(d: &[u8; 32]) -> (r: Vec<u8>)
    ensures
        r@ == d@,
{
    let mut r: Vec<u8> = Vec::new();
    let mut j: usize = 0;
    while j < 32
        invariant
            0 <= j <= 32,
            d@.len() == 32,
            r@ == d@.subrange(0, j as int),
        decreases 32 - j,
    {
        r.push(d[j]);
        assert(r@ =~= d@.subrange(0, j + 1));
        j = j + 1;
    }
    assert(r@ =~= d@);
    r
}

/// Computes the canonical encoding of the subtrie holding `entries`.
pub(crate) fn encode_subtrie(entries: &Vec<(Vec<u8>, Vec<u8>)>) -> (r: Vec<u8>)
    requires
        valid_entries(entries_view(entries@)),
    ensures
        r@ == subtrie_encoding(entries_view(entries@)),
    decreases max_klen(entries_view(entries@)), 2int, 0int,
{
    let ev = Ghost(entries_view(entries@));
    if entries.len() == 0 {
        let mut r: Vec<u8> = Vec::new();
        r.push(0u8);
        assert(r@ =~= seq![0u8]);
        r
    } else {
        // The node's partial key: the longest common prefix of all keys.
        let mut pk = copy_suffix(&entries[0].0, 0);
        proof {
            assert(pk@ =~= ev@[0].0);
            assert(keys_of(ev@).subrange(0, 1) =~= seq![ev@[0].0]);
            assert(lcp_all(keys_of(ev@).subrange(0, 1)) == ev@[0].0);
        }
        let mut j: usize = 1;
        while j < entries.len()
            invariant
                1 <= j <= ev@.len(),
                ev@ == entries_view(entries@),
                pk@ == lcp_all(keys_of(ev@).subrange(0, j as int)),
            decreases ev@.len() - j,
        {
            pk = lcp_pair_bytes(&pk, &entries[j].0);
            proof {
                let kv = keys_of(ev@);
                assert(kv.subrange(0, j + 1).drop_last() =~= kv.subrange(0, j as int));
                assert(kv.subrange(0, j + 1).last() == ev@[j as int].0);
            }
            j = j + 1;
        }
        proof {
            assert(keys_of(ev@).subrange(0, ev@.len() as int) =~= keys_of(ev@));
            lemma_lcp_all_prefix(keys_of(ev@));
            assert(forall|i: int|
                0 <= i < ev@.len() ==> pk@.len() <= (#[trigger] ev@[i]).0.len()) by {
                assert(forall|i: int|
                    0 <= i < ev@.len() ==> keys_of(ev@)[i] == (#[trigger] ev@[i]).0);
            }
            // The partial key consists of meaningful nibbles.
            assert(nibbles_valid(pk@)) by {
                assert(is_prefix_of(pk@, keys_of(ev@)[0]));
                assert(forall|i: int| 0 <= i < pk@.len() ==> pk@[i] == ev@[0].0[i]);
            }
        }
        // Strip the partial key off every entry.
        let mut rest: Vec<(Vec<u8>, Vec<u8>)> = Vec::new();
        let mut t: usize = 0;
        while t < entries.len()
            invariant
                0 <= t <= ev@.len(),
                ev@ == entries_view(entries@),
                forall|i: int| 0 <= i < ev@.len() ==> pk@.len() <= (#[trigger] ev@[i]).0.len(),
                entries_view(rest@) == strip_prefix_len(ev@, pk@.len() as int).subrange(
                    0,
                    t as int,
                ),
            decreases ev@.len() - t,
        {
            proof {
                assert(ev@[t as int] == (entries@[t as int].0@, entries@[t as int].1@));
                assert(pk@.len() <= ev@[t as int].0.len());
            }
            let key = copy_suffix(&entries[t].0, pk.len());
            let val = copy_suffix(&entries[t].1, 0);
            proof {
                assert(val@ =~= entries@[t as int].1@);
            }
            let ghost rhead = rest@;
            rest.push((key, val));
            proof {
                let pkl = pk@.len() as int;
                let sp = strip_prefix_len(ev@, pkl);
                assert(rest@ == rhead.push((key, val)));
                assert(entries_view(rhead) == sp.subrange(0, t as int));
                assert(entries_view(rhead).len() == rhead.len());
                assert(sp.len() == ev@.len());
                assert(rest@.len() == t + 1);
                assert(entries_view(rest@)[t as int] == (key@, val@));
                assert(sp[t as int] == (ev@[t as int].0.skip(pkl), ev@[t as int].1));
                assert(key@ == ev@[t as int].0.skip(pkl));
                assert(val@ == ev@[t as int].1);
                assert(forall|k: int|
                    0 <= k < t ==> #[trigger] entries_view(rest@)[k] == entries_view(
                        rest@.drop_last(),
                    )[k]);
                assert(rest@.drop_last() =~= rest@.subrange(0, t as int));
                assert(entries_view(rest@) =~~= sp.subrange(0, t + 1));
            }
            t = t + 1;
        }
        proof {
            assert(entries_view(rest@) =~~= strip_prefix_len(ev@, pk@.len() as int));
            assert(valid_entries(entries_view(rest@))) by {
                assert(forall|a: int, b: int|
                    0 <= a < ev@.len() && 0 <= b < ev@[a].0.len() - pk@.len()
                        ==> #[trigger] entries_view(rest@)[a].0[b] == ev@[a].0[b
                        + pk@.len()]);
            }
            lemma_max_klen_strip(ev@, pk@.len() as int);
        }
        let r = encode_node(&pk, &rest);
        proof {
            assert(r@ == subtrie_encoding(ev@));
        }
        r
    }
}

/// Computes the canonical encoding of a node with partial key `pk` and
/// subtrie entries `rest` (keys relative to the end of `pk`).
pub(crate) fn encode_node(pk: &Vec<u8>, rest: &Vec<(Vec<u8>, Vec<u8>)>) -> (r: Vec<u8>)
    requires
        nibbles_valid(pk@),
        valid_entries(entries_view(rest@)),
    ensures
        r@ == node_encoding(pk@, entries_view(rest@)),
    decreases max_klen(entries_view(rest@)), 1int, 0int,
{
    let restv = Ghost(entries_view(rest@));
    let mut out: Vec<u8> = Vec::new();
    let has_value = rest.len() > 0 && rest[0].0.len() == 0;
    let mask = compute_child_mask(rest);
    let kind: u8 = if has_value && mask != 0 {
        0xc0
    } else if mask != 0 {
        0x80
    } else if has_value {
        0x40
    } else {
        0x00
    };
    proof {
        assert(kind == header_kind(has_value, mask != 0));
    }
    // Header byte(s).
    if pk.len() < 63 {
        out.push(kind + (pk.len() as u8));
    } else {
        out.push(kind + 63);
        push_header_cont(&mut out, pk.len() - 62);
    }
    let ghost after_header = out@;
    proof {
        assert(after_header =~= header_encoding(has_value, mask != 0, pk@.len() as nat));
    }
    // Packed partial key.
    push_packed(&mut out, pk);
    let ghost after_pk = out@;
    // Children bitmap (branches only).
    if mask != 0 {
        out.push((mask % 256) as u8);
        out.push((mask / 256) as u8);
    }
    let ghost after_bitmap = out@;
    proof {
        assert(after_bitmap =~= after_pk + (if mask != 0 {
            seq![(mask % 256) as u8, (mask / 256) as u8]
        } else {
            Seq::<u8>::empty()
        }));
    }
    // Own value, length-prefixed.
    if has_value {
        let mut lp = compact_encode_u64(rest[0].1.len() as u64);
        out.append(&mut lp);
        let mut vv = copy_suffix(&rest[0].1, 0);
        out.append(&mut vv);
        proof {
            assert(rest@[0].1@.skip(0) =~= restv@[0].1);
        }
    }
    let ghost after_value = out@;
    proof {
        assert(after_value =~= after_bitmap + (if restv@.len() > 0 && restv@[0].0.len() == 0 {
            compact_encoding(restv@[0].1.len() as u64) + restv@[0].1
        } else {
            Seq::<u8>::empty()
        }));
    }
    // Child references, in ascending slot order.
    let mut i: u8 = 0;
    while i < 16
        invariant
            0 <= i <= 16,
            restv@ == entries_view(rest@),
            valid_entries(restv@),
            out@ + children_encoding(restv@, i as int) == after_value + children_encoding(
                restv@,
                0,
            ),
        decreases 16 - i,
    {
        let ch = filter_child(rest, i);
        let ghost before = out@;
        if ch.len() > 0 {
            proof {
                lemma_child_entries_valid(restv@, i);
                lemma_child_entries_max(restv@, i);
            }
            let enc = encode_subtrie(&ch);
            let mut refb: Vec<u8> = if enc.len() < 32 {
                enc
            } else {
                let d = blake2b_256_hash(enc.as_slice());
                digest_to_vec(&d)
            };
            let mut lp = compact_encode_u64(refb.len() as u64);
            out.append(&mut lp);
            out.append(&mut refb);
            proof {
                assert(before + child_ref_encoding(subtrie_encoding(entries_view(ch@))) =~= out@);
            }
        }
        proof {
            assert(children_encoding(restv@, i as int) == (if child_entries(
                restv@,
                i,
            ).len() > 0 {
                child_ref_encoding(subtrie_encoding(child_entries(restv@, i)))
            } else {
                Seq::<u8>::empty()
            }) + children_encoding(restv@, i + 1));
            assert(out@ + children_encoding(restv@, i + 1) =~= after_value + children_encoding(
                restv@,
                0,
            ));
        }
        i = i + 1;
    }
    proof {
        assert(children_encoding(restv@, 16) == Seq::<u8>::empty());
        assert(out@ =~= after_value + children_encoding(restv@, 0));
        assert(out@ =~= node_encoding(pk@, restv@));
    }
    out
}

} // verus!
