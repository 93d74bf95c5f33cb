//! Nibbles (4-bit key units), node keys, and the prefix operations on them.
//!
//! A trie key is a sequence of nibbles; a byte key turns into twice as many
//! nibbles, high half first. Keys are ordered lexicographically, and that
//! order agrees with the lexicographic order of the underlying byte keys.

use vstd::prelude::*;

verus! {

/// One 4-bit unit of a key. Meaningful values are `0..=15`.
#[derive(Clone, Copy, PartialEq, Eq, Structural, Debug)]
pub struct Nibble(pub u8);

impl View for Nibble {
    type V = u8;

    open spec fn view(&self) -> u8 {
        self.0
    }
}

/// The key of a trie node: a sequence of nibbles.
#[derive(Debug)]
pub struct TrieNodeKey {
    pub nibbles: Vec<Nibble>,
}

impl View for TrieNodeKey {
    type V = Seq<u8>;

    open spec fn view(&self) -> Seq<u8> {
        nibble_seq(self.nibbles@)
    }
}

/// The nibble values held by a sequence of `Nibble`s.
pub open spec fn nibble_seq(v: Seq<Nibble>) -> Seq<u8> {
    v.map_values(|n: Nibble| n.0)
}

/// Every element of `s` is a meaningful nibble value.
pub open spec fn nibbles_valid(s: Seq<u8>) -> bool {
    forall|i: int| 0 <= i < s.len() ==> s[i] < 16
}

/// `p` is a prefix of `k`.
pub open spec fn is_prefix_of(p: Seq<u8>, k: Seq<u8>) -> bool {
    p.len() <= k.len() && forall|i: int| 0 <= i < p.len() ==> p[i] == k[i]
}

/// Strict lexicographic order on byte (or nibble) sequences: a proper
/// prefix sorts before its extensions.
pub open spec fn lex_lt(a: Seq<u8>, b: Seq<u8>) -> bool
    decreases a.len(),
{
    if b.len() == 0 {
        false
    } else if a.len() == 0 {
        true
    } else if a[0] < b[0] {
        true
    } else if a[0] == b[0] {
        lex_lt(a.skip(1), b.skip(1))
    } else {
        false
    }
}

/// The longest common prefix of two sequences.
pub open spec fn lcp2(a: Seq<u8>, b: Seq<u8>) -> Seq<u8>
    decreases a.len(),
{
    if a.len() == 0 || b.len() == 0 || a[0] != b[0] {
        Seq::empty()
    } else {
        seq![a[0]] + lcp2(a.skip(1), b.skip(1))
    }
}

/// The longest common prefix of a sequence of keys (empty for no keys).
pub open spec fn lcp_all(ks: Seq<Seq<u8>>) -> Seq<u8>
    decreases ks.len(),
{
    if ks.len() == 0 {
        Seq::empty()
    } else if ks.len() == 1 {
        ks[0]
    } else {
        lcp2(lcp_all(ks.drop_last()), ks.last())
    }
}

/// The nibbles of a byte key: each byte contributes its high half then its
/// low half.
pub open spec fn nibbles_of_bytes(k: Seq<u8>) -> Seq<u8>
    decreases k.len(),
{
    if k.len() == 0 {
        Seq::empty()
    } else {
        seq![k[0] / 16, k[0] % 16] + nibbles_of_bytes(k.skip(1))
    }
}

pub proof fn lemma_lex_irreflexive(a: Seq<u8>)
    ensures
        !lex_lt(a, a),
    decreases a.len(),
{
    if a.len() > 0 {
        lemma_lex_irreflexive(a.skip(1));
    }
}

pub proof fn lemma_lex_connected(a: Seq<u8>, b: Seq<u8>)
    ensures
        lex_lt(a, b) || lex_lt(b, a) || a == b,
    decreases a.len(),
{
    if a.len() == 0 && b.len() == 0 {
        assert(a =~= b);
    } else if a.len() > 0 && b.len() > 0 && a[0] == b[0] {
        lemma_lex_connected(a.skip(1), b.skip(1));
        if a.skip(1) == b.skip(1) {
            assert(a.skip(1).len() == a.len() - 1);
            assert(b.skip(1).len() == b.len() - 1);
            assert(a.len() == b.len());
            assert forall|i: int| 0 <= i < a.len() implies a[i] == b[i] by {
                if i > 0 {
                    assert(a[i] == a.skip(1)[i - 1]);
                    assert(b[i] == b.skip(1)[i - 1]);
                }
            }
            assert(a =~= b);
        }
    }
}

pub proof fn lemma_lex_asymmetric(a: Seq<u8>, b: Seq<u8>)
    requires
        lex_lt(a, b),
    ensures
        !lex_lt(b, a),
        a != b,
    decreases a.len(),
{
    lemma_lex_irreflexive(a);
    if a.len() > 0 && b.len() > 0 && a[0] == b[0] {
        lemma_lex_asymmetric(a.skip(1), b.skip(1));
    }
}

pub proof fn lemma_lex_transitive(a: Seq<u8>, b: Seq<u8>, c: Seq<u8>)
    requires
        lex_lt(a, b),
        lex_lt(b, c),
    ensures
        lex_lt(a, c),
    decreases a.len(),
{
    if a.len() > 0 && b.len() > 0 && c.len() > 0 && a[0] == b[0] && b[0] == c[0] {
        lemma_lex_transitive(a.skip(1), b.skip(1), c.skip(1));
    }
}

/// Characterizes `lex_lt` by the first position where the sequences differ.
pub proof fn lemma_lex_lt_at(a: Seq<u8>, b: Seq<u8>, n: int)
    requires
        0 <= n <= a.len(),
        n <= b.len(),
        forall|i: int| 0 <= i < n ==> a[i] == b[i],
        n == a.len() || n == b.len() || a[n] != b[n],
    ensures
        lex_lt(a, b) == (n < b.len() && (n == a.len() || a[n] < b[n])),
    decreases n,
{
    if n == 0 {
    } else {
        lemma_lex_lt_at(a.skip(1), b.skip(1), n - 1);
    }
}

/// Characterizes `lcp2` by the first position where the sequences differ.
pub proof fn lemma_lcp2_at(a: Seq<u8>, b: Seq<u8>, n: int)
    requires
        0 <= n <= a.len(),
        n <= b.len(),
        forall|i: int| 0 <= i < n ==> a[i] == b[i],
        n == a.len() || n == b.len() || a[n] != b[n],
    ensures
        lcp2(a, b) == a.subrange(0, n),
    decreases n,
{
    if n == 0 {
        assert(lcp2(a, b) =~= a.subrange(0, 0));
    } else {
        lemma_lcp2_at(a.skip(1), b.skip(1), n - 1);
        assert(seq![a[0]] + a.skip(1).subrange(0, n - 1) =~= a.subrange(0, n));
    }
}

/// `lcp2(a, b)` is a common prefix of `a` and `b`, and is not extendable:
/// it stops only at the end of one sequence or at a mismatch.
pub proof fn lemma_lcp2_props(a: Seq<u8>, b: Seq<u8>)
    ensures
        is_prefix_of(lcp2(a, b), a),
        is_prefix_of(lcp2(a, b), b),
        lcp2(a, b).len() == a.len() || lcp2(a, b).len() == b.len() || a[lcp2(a, b).len() as int]
            != b[lcp2(a, b).len() as int],
    decreases a.len(),
{
    if a.len() == 0 || b.len() == 0 || a[0] != b[0] {
    } else {
        lemma_lcp2_props(a.skip(1), b.skip(1));
        let l = lcp2(a.skip(1), b.skip(1));
        assert(forall|i: int|
            0 <= i < l.len() + 1 ==> (seq![a[0]] + l)[i] == #[trigger] a[i]) by {
            assert(forall|i: int| 1 <= i < l.len() + 1 ==> (seq![a[0]] + l)[i] == a.skip(1)[i - 1]);
        }
        assert(forall|i: int|
            0 <= i < l.len() + 1 ==> (seq![a[0]] + l)[i] == #[trigger] b[i]) by {
            assert(forall|i: int| 1 <= i < l.len() + 1 ==> (seq![a[0]] + l)[i] == b.skip(1)[i - 1]);
        }
    }
}

pub proof fn lemma_prefix_transitive(p: Seq<u8>, q: Seq<u8>, k: Seq<u8>)
    requires
        is_prefix_of(p, q),
        is_prefix_of(q, k),
    ensures
        is_prefix_of(p, k),
{
}

/// The common prefix of a non-empty list of keys is a prefix of each of them.
pub proof fn lemma_lcp_all_prefix(ks: Seq<Seq<u8>>)
    requires
        ks.len() > 0,
    ensures
        forall|i: int| 0 <= i < ks.len() ==> is_prefix_of(lcp_all(ks), ks[i]),
    decreases ks.len(),
{
    if ks.len() == 1 {
    } else {
        lemma_lcp_all_prefix(ks.drop_last());
        lemma_lcp2_props(lcp_all(ks.drop_last()), ks.last());
        assert forall|i: int| 0 <= i < ks.len() implies is_prefix_of(lcp_all(ks), ks[i]) by {
            if i < ks.len() - 1 {
                assert(is_prefix_of(lcp_all(ks.drop_last()), ks.drop_last()[i]));
                lemma_prefix_transitive(lcp_all(ks), lcp_all(ks.drop_last()), ks[i]);
            } else {
                assert(ks[i] == ks.last());
            }
        }
    }
}

/// The common prefix of a non-empty list of keys cannot be extended by any
/// further nibble and remain a common prefix.
pub proof fn lemma_lcp_all_maximal(ks: Seq<Seq<u8>>, c: u8)
    requires
        ks.len() > 0,
    ensures
        exists|i: int|
            0 <= i < ks.len() && !is_prefix_of(lcp_all(ks).push(c), #[trigger] ks[i]),
    decreases ks.len(),
{
    let p = lcp_all(ks);
    if ks.len() == 1 {
        assert(!is_prefix_of(p.push(c), ks[0])) by {
            assert(p == ks[0]);
            assert(p.push(c).len() > ks[0].len());
        }
    } else {
        let q = lcp_all(ks.drop_last());
        lemma_lcp_all_prefix(ks.drop_last());
        lemma_lcp2_props(q, ks.last());
        // p == lcp2(q, ks.last()); p is a prefix of q.
        if p.len() == q.len() {
            // p == q: an extension that covered every key would extend q over
            // the shorter list too.
            assert(p =~= q);
            lemma_lcp_all_maximal(ks.drop_last(), c);
            let w = choose|i: int|
                0 <= i < ks.drop_last().len() && !is_prefix_of(
                    q.push(c),
                    #[trigger] ks.drop_last()[i],
                );
            assert(ks.drop_last()[w] == ks[w]);
            assert(!is_prefix_of(p.push(c), ks[w]));
        } else if p.len() == ks.last().len() {
            // The common prefix is all of the last key: nothing extends it
            // within that key.
            assert(!is_prefix_of(p.push(c), ks.last()));
            assert(ks.last() == ks[ks.len() - 1]);
        } else {
            // lcp2 stopped at a mismatch between q and the last key: no
            // single nibble can follow p in both.
            assert(q[p.len() as int] != ks.last()[p.len() as int]);
            if c == ks.last()[p.len() as int] {
                // Some earlier key carries q, whose next nibble differs from c.
                let k0 = ks.drop_last()[0];
                assert(is_prefix_of(q, k0));
                assert(k0[p.len() as int] == q[p.len() as int]);
                assert(!is_prefix_of(p.push(c), k0)) by {
                    assert(p.push(c)[p.len() as int] == c);
                }
                assert(ks.drop_last()[0] == ks[0]);
            } else {
                assert(!is_prefix_of(p.push(c), ks.last())) by {
                    assert(p.push(c)[p.len() as int] == c);
                }
                assert(ks.last() == ks[ks.len() - 1]);
            }
        }
    }
}

/// Law: for a non-empty list of keys, `lcp_all` yields a common prefix of
/// every key, and no nibble `c` extends it into a longer common prefix: some
/// key either ends at the common prefix or continues with a different nibble.
pub proof fn lemma_common_prefix_longest(ks: Seq<Seq<u8>>, c: u8)
    requires
        ks.len() > 0,
    ensures
        forall|i: int| 0 <= i < ks.len() ==> is_prefix_of(lcp_all(ks), ks[i]),
        exists|i: int|
            0 <= i < ks.len() && !is_prefix_of(lcp_all(ks).push(c), #[trigger] ks[i]),
{
    lemma_lcp_all_prefix(ks);
    lemma_lcp_all_maximal(ks, c);
}

/// Every nibble of a byte key is a meaningful nibble value, and there are two
/// nibbles per byte.
pub proof fn lemma_nibbles_of_bytes_form(k: Seq<u8>)
    ensures
        nibbles_valid(nibbles_of_bytes(k)),
        nibbles_of_bytes(k).len() == 2 * k.len(),
    decreases k.len(),
{
    if k.len() > 0 {
        lemma_nibbles_of_bytes_form(k.skip(1));
    }
}

/// Appending one byte appends its two nibbles.
pub proof fn lemma_nibbles_of_bytes_snoc(k: Seq<u8>)
    requires
        k.len() > 0,
    ensures
        nibbles_of_bytes(k) == nibbles_of_bytes(k.drop_last()) + seq![
            k.last() / 16,
            k.last() % 16,
        ],
    decreases k.len(),
{
    if k.len() == 1 {
        reveal_with_fuel(nibbles_of_bytes, 3);
        assert(k.skip(1).len() == 0);
        assert(k.drop_last().len() == 0);
        assert(nibbles_of_bytes(k) =~= nibbles_of_bytes(k.drop_last()) + seq![
            k.last() / 16,
            k.last() % 16,
        ]);
    } else {
        lemma_nibbles_of_bytes_snoc(k.skip(1));
        let pair0 = seq![k[0] / 16, k[0] % 16];
        let pairl = seq![k.last() / 16, k.last() % 16];
        assert(k.skip(1).drop_last() =~= k.drop_last().skip(1));
        assert(k.skip(1).last() == k.last());
        assert(k.drop_last()[0] == k[0]);
        assert(nibbles_of_bytes(k) == pair0 + nibbles_of_bytes(k.skip(1)));
        assert(nibbles_of_bytes(k.skip(1)) == nibbles_of_bytes(k.drop_last().skip(1)) + pairl);
        assert(nibbles_of_bytes(k.drop_last()) == pair0 + nibbles_of_bytes(k.drop_last().skip(1)));
        assert(pair0 + (nibbles_of_bytes(k.drop_last().skip(1)) + pairl) =~= (pair0
            + nibbles_of_bytes(k.drop_last().skip(1))) + pairl);
        assert(nibbles_of_bytes(k) =~= nibbles_of_bytes(k.drop_last()) + pairl);
    }
}

/// Byte keys compare the same way their nibble expansions do.
pub proof fn lemma_nibble_order(a: Seq<u8>, b: Seq<u8>)
    ensures
        lex_lt(a, b) == lex_lt(nibbles_of_bytes(a), nibbles_of_bytes(b)),
    decreases a.len(),
{
    lemma_nibbles_of_bytes_form(a);
    lemma_nibbles_of_bytes_form(b);
    let na = nibbles_of_bytes(a);
    let nb = nibbles_of_bytes(b);
    if b.len() == 0 {
    } else if a.len() == 0 {
    } else {
        let a0 = a[0];
        let b0 = b[0];
        assert(a0 == 16 * (a0 / 16) + a0 % 16);
        assert(b0 == 16 * (b0 / 16) + b0 % 16);
        reveal_with_fuel(lex_lt, 3);
        assert(na.skip(1) =~= seq![a0 % 16] + nibbles_of_bytes(a.skip(1)));
        assert(nb.skip(1) =~= seq![b0 % 16] + nibbles_of_bytes(b.skip(1)));
        if a0 / 16 == b0 / 16 && a0 % 16 == b0 % 16 {
            lemma_nibble_order(a.skip(1), b.skip(1));
            assert(na.skip(1).skip(1) =~= nibbles_of_bytes(a.skip(1)));
            assert(nb.skip(1).skip(1) =~= nibbles_of_bytes(b.skip(1)));
        }
    }
}

/// Copies the nibbles of `a`.
fn copy_key(a: &Vec<Nibble>) -> (r: Vec<Nibble>)
    ensures
        r@ == a@,
{
    let mut r: Vec<Nibble> = Vec::new();
    let mut j: usize = 0;
    while j < a.len()
        invariant
            0 <= j <= a.len(),
            r@ == a@.subrange(0, j as int),
        decreases a.len() - j,
    {
        r.push(a[j]);
        assert(r@ =~= a@.subrange(0, j + 1));
        j = j + 1;
    }
    assert(r@ =~= a@);
    r
}

/// The longest common prefix of two node keys.
fn common_prefix_pair(a: &Vec<Nibble>, b: &Vec<Nibble>) -> (r: Vec<Nibble>)
    ensures
        nibble_seq(r@) == lcp2(nibble_seq(a@), nibble_seq(b@)),
{
    let mut n: usize = 0;
    while n < a.len() && n < b.len() && a[n].0 == b[n].0
        invariant
            0 <= n <= a.len(),
            n <= b.len(),
            forall|i: int| 0 <= i < n ==> nibble_seq(a@)[i] == nibble_seq(b@)[i],
        decreases a.len() - n,
    {
        n = n + 1;
    }
    proof {
        lemma_lcp2_at(nibble_seq(a@), nibble_seq(b@), n as int);
    }
    let mut r: Vec<Nibble> = Vec::new();
    let mut j: usize = 0;
    while j < n
        invariant
            0 <= j <= n <= a.len(),
            r@ == a@.subrange(0, j as int),
        decreases n - j,
    {
        r.push(a[j]);
        assert(r@ =~= a@.subrange(0, j + 1));
        j = j + 1;
    }
    proof {
        assert(nibble_seq(r@) =~= nibble_seq(a@).subrange(0, n as int));
    }
    r
}

/// The views of a list of node keys.
pub open spec fn key_views(ks: Seq<Vec<Nibble>>) -> Seq<Seq<u8>> {
    ks.map_values(|v: Vec<Nibble>| nibble_seq(v@))
}

/// Returns the longest common prefix of the given keys, or `None` when no
/// keys are given. An empty result for a non-empty input means the keys
/// genuinely share no leading nibble, which is distinct from the `None` of an
/// empty input.
pub fn common_prefix(keys: &[Vec<Nibble>]) -> (r: Option<Vec<Nibble>>)
    ensures
        match r {
            Option::None => keys@.len() == 0,
            Option::Some(p) => keys@.len() > 0 && nibble_seq(p@) == lcp_all(key_views(keys@)),
        },
{
    if keys.len() == 0 {
        return None;
    }
    let mut p: Vec<Nibble> = copy_key(&keys[0]);
    let mut j: usize = 1;
    proof {
        assert(key_views(keys@).subrange(0, 1) =~= seq![nibble_seq(keys@[0]@)]);
    }
    while j < keys.len()
        invariant
            1 <= j <= keys@.len(),
            nibble_seq(p@) == lcp_all(key_views(keys@).subrange(0, j as int)),
        decreases keys@.len() - j,
    {
        p = common_prefix_pair(&p, &keys[j]);
        proof {
            let kv = key_views(keys@);
            assert(kv.subrange(0, j + 1).drop_last() =~= kv.subrange(0, j as int));
            assert(kv.subrange(0, j + 1).last() == nibble_seq(keys@[j as int]@));
        }
        j = j + 1;
    }
    proof {
        assert(key_views(keys@).subrange(0, keys@.len() as int) =~= key_views(keys@));
    }
    Some(p)
}

impl TrieNodeKey {
    /// The nibble expansion of a byte key: two nibbles per byte, high half
    /// first.
    pub fn from_bytes(bytes: &[u8]) -> (r: TrieNodeKey)
        ensures
            r@ == nibbles_of_bytes(bytes@),
            nibbles_valid(r@),
    {
        let mut nibbles: Vec<Nibble> = Vec::new();
        let mut j: usize = 0;
        while j < bytes.len()
            invariant
                0 <= j <= bytes@.len(),
                nibble_seq(nibbles@) == nibbles_of_bytes(bytes@.subrange(0, j as int)),
            decreases bytes@.len() - j,
        {
            let b = bytes[j];
            nibbles.push(Nibble(b / 16));
            nibbles.push(Nibble(b % 16));
            proof {
                let pre = bytes@.subrange(0, j + 1);
                lemma_nibbles_of_bytes_snoc(pre);
                assert(pre.drop_last() =~= bytes@.subrange(0, j as int));
                assert(nibble_seq(nibbles@) =~= nibbles_of_bytes(bytes@.subrange(0, j as int))
                    + seq![b / 16, b % 16]);
            }
            j = j + 1;
        }
        proof {
            assert(bytes@.subrange(0, bytes@.len() as int) =~= bytes@);
            lemma_nibbles_of_bytes_form(bytes@);
        }
        TrieNodeKey { nibbles }
    }
}

} // verus!
