use crate::bytes::same_bytes;
use crate::constants::ZERO32;
use crate::merkle::get_bit;
use crate::merkle::key_bit;
use crate::merkle::leaf_hash;
use crate::merkle::leaf_hash_absent;
use crate::merkle::leaf_hash_spec;
use crate::merkle::leaf_of;
use crate::merkle::node_hash;
use crate::merkle::node_hash_spec;
use crate::merkle::path_hash;
use crate::merkle::Proof;
use crate::state::lookup;
use crate::state::store_put;
use hashbrown::HashMap;
use vstd::prelude::*;

verus! {

/// The keys and values of a tree, kept in a `hashbrown::HashMap`.
#[verifier::external_body]
pub struct ValueTable {
    inner: HashMap<[u8; 32], Vec<u8>>,
}

/// Hashes of subtrees already computed, kept in a `hashbrown::HashMap`
/// from depth and prefix to hash.
#[verifier::external_body]
pub struct HashMemo {
    inner: HashMap<(u16, [u8; 32]), [u8; 32]>,
}

/// What a table holds: each key with its value.
pub uninterp spec fn table_entries(table: ValueTable) -> Map<Seq<u8>, Seq<u8>>;

/// What a memo holds: each depth and prefix with its hash.
pub uninterp spec fn memo_entries(memo: HashMemo) -> Map<(u16, Seq<u8>), Seq<u8>>;

/// `HashMap::new`: a table that holds nothing.
#[verifier::external_body]
fn table_new() -> (table: ValueTable)
    ensures
        table_entries(table) =~= Map::empty(),
{
    ValueTable { inner: HashMap::new() }
}

/// `HashMap::get`, with the value copied out: the value stored at `key`,
/// or `None` when the table has no such key.
#[verifier::external_body]
fn table_get(table: &ValueTable, key: &[u8; 32]) -> (value: Option<Vec<u8>>)
    ensures
        value is Some == table_entries(*table).contains_key(key@),
        value matches Some(v) ==> v@ == table_entries(*table)[key@],
{
    table.inner.get(key).cloned()
}

/// `HashMap::insert`: afterwards `key` holds `value`, whether or not it was
/// there before, and every other key is as it was.
#[verifier::external_body]
fn table_insert(table: &mut ValueTable, key: [u8; 32], value: Vec<u8>)
    ensures
        table_entries(*final(table)) == table_entries(*old(table)).insert(key@, value@),
{
    table.inner.insert(key, value);
}

/// `HashMap::remove`: afterwards `key` is gone, and every other key is as it was.
#[verifier::external_body]
fn table_remove(table: &mut ValueTable, key: &[u8; 32])
    ensures
        table_entries(*final(table)) == table_entries(*old(table)).remove(key@),
{
    table.inner.remove(key);
}

/// `HashMap::keys`, collected: every key of the table, in no stated order.
#[verifier::external_body]
fn table_keys(table: &ValueTable) -> (keys: Vec<[u8; 32]>)
    ensures
        forall|k: Seq<u8>|
            table_entries(*table).contains_key(k) <==> exists|i: int|
                0 <= i < keys@.len() && (#[trigger] keys@[i])@ == k,
{
    table.inner.keys().copied().collect()
}

/// `HashMap::new`: a memo that holds nothing.
#[verifier::external_body]
fn memo_new() -> (memo: HashMemo)
    ensures
        memo_entries(memo) =~= Map::empty(),
{
    HashMemo { inner: HashMap::new() }
}

/// `HashMap::get`, with the hash copied out: the hash stored for `depth`
/// and `prefix`, or `None` when the memo has none.
#[verifier::external_body]
fn memo_get(memo: &HashMemo, depth: u16, prefix: &[u8; 32]) -> (hash: Option<[u8; 32]>)
    ensures
        hash is Some == memo_entries(*memo).contains_key((depth, prefix@)),
        hash matches Some(h) ==> h@ == memo_entries(*memo)[(depth, prefix@)],
{
    memo.inner.get(&(depth, *prefix)).copied()
}

/// `HashMap::insert`: afterwards `depth` and `prefix` hold `hash`, and
/// every other entry is as it was.
#[verifier::external_body]
fn memo_insert(memo: &mut HashMemo, depth: u16, prefix: [u8; 32], hash: [u8; 32])
    ensures
        memo_entries(*final(memo)) == memo_entries(*old(memo)).insert((depth, prefix@), hash@),
{
    memo.inner.insert((depth, prefix), hash);
}

/// The byte that keeps its `n` high bits: `0xFF << (8 - n)`, and 0 for `n = 0`.
pub open spec fn high_mask(n: u8) -> u8 {
    if n == 0 {
        0u8
    } else {
        0xFFu8 << ((8 - n) as u8)
    }
}

/// The 32 bytes that keep the first `bits` bits of `key` and are zero after them.
pub open spec fn clear_from(key: Seq<u8>, bits: int) -> Seq<u8> {
    Seq::new(
        32,
        |i: int|
            if i < bits / 8 {
                key[i]
            } else if i == bits / 8 {
                key[i] & high_mask((bits % 8) as u8)
            } else {
                0u8
            },
    )
}

/// The prefix of length `depth + 1` that continues the first `depth` bits
/// of `prefix` with `bit`; every later bit is zero.
pub open spec fn with_bit(prefix: Seq<u8>, depth: int, bit: u8) -> Seq<u8> {
    let base = clear_from(prefix, depth);
    let mark = 1u8 << ((7 - depth % 8) as u8);
    base.update(
        depth / 8,
        if bit == 1 {
            base[depth / 8] | mark
        } else {
            base[depth / 8] & !mark
        },
    )
}

/// Whether `key` and `prefix` agree on their first `depth` bits.
pub open spec fn shares_prefix(key: Seq<u8>, prefix: Seq<u8>, depth: int) -> bool {
    if depth <= 0 {
        true
    } else if depth >= 256 {
        key == prefix
    } else {
        &&& forall|i: int| 0 <= i < depth / 8 ==> key[i] == prefix[i]
        &&& depth % 8 != 0 ==> key[depth / 8] & high_mask((depth % 8) as u8) == prefix[depth / 8]
            & high_mask((depth % 8) as u8)
    }
}

/// The hash of the subtree below `prefix` at `depth`: at depth 256 the hash
/// of the leaf with that key, above it the hash of the two subtrees that
/// continue the prefix with 0 and with 1.
pub open spec fn subtree_hash(entries: Map<Seq<u8>, Seq<u8>>, prefix: Seq<u8>, depth: nat) -> Seq<
    u8,
>
    decreases 256 - depth,
{
    if depth >= 256 {
        if entries.contains_key(prefix) {
            leaf_hash_spec(prefix, entries[prefix])
        } else {
            ZERO32@
        }
    } else {
        node_hash_spec(
            subtree_hash(entries, with_bit(prefix, depth as int, 0), depth + 1),
            subtree_hash(entries, with_bit(prefix, depth as int, 1), depth + 1),
        )
    }
}

/// The hash of a subtree at `depth` that holds no key.
pub open spec fn empty_hash(depth: nat) -> Seq<u8>
    decreases 256 - depth,
{
    if depth >= 256 {
        ZERO32@
    } else {
        node_hash_spec(empty_hash(depth + 1), empty_hash(depth + 1))
    }
}

/// The root of the tree that holds `entries`.
pub open spec fn tree_root(entries: Map<Seq<u8>, Seq<u8>>) -> Seq<u8> {
    subtree_hash(entries, ZERO32@, 0)
}

/// Whether no key of `entries` lies below `prefix` at `depth`.
pub open spec fn nothing_below(entries: Map<Seq<u8>, Seq<u8>>, prefix: Seq<u8>, depth: int) -> bool {
    forall|k: Seq<u8>| entries.contains_key(k) ==> !shares_prefix(k, prefix, depth)
}

/// Whether every hash in the memo is the hash of its subtree of `entries`.
pub open spec fn memo_sound(memo: Map<(u16, Seq<u8>), Seq<u8>>, entries: Map<Seq<u8>, Seq<u8>>) -> bool {
    forall|d: u16, p: Seq<u8>| #[trigger]
        memo.contains_key((d, p)) ==> memo[(d, p)] == subtree_hash(entries, p, d as nat)
}

proof fn lemma_mask_step(x: u8, y: u8, r: u8, b: u8)
    by (bit_vector)
    requires
        r < 8,
    ensures
        ({
            let hm = if r == 0 {
                0u8
            } else {
                0xFFu8 << ((8 - r) as u8)
            };
            let hm1 = if r + 1 == 8 {
                0xFFu8
            } else {
                0xFFu8 << ((8 - (r + 1)) as u8)
            };
            let mark = 1u8 << ((7 - r) as u8);
            let base = (y & hm) & hm;
            let w = if b == 1 {
                base | mark
            } else {
                base & !mark
            };
            &&& ((x & hm1) == (w & hm1) ==> (x & hm) == (y & hm))
            &&& (b == ((y >> ((7 - r) as u8)) & 1u8) ==> w == (y & hm1))
            &&& (hm & hm) == hm
            &&& ((y & hm) & hm) == (y & hm)
            &&& (x & 0xFFu8) == x
        }),
{
}

/// A key that lies below the longer prefix lies below the shorter one.
proof fn lemma_shares_shorter(key: Seq<u8>, prefix: Seq<u8>, depth: int, bit: u8)
    requires
        0 <= depth < 256,
        prefix.len() == 32,
        shares_prefix(key, with_bit(prefix, depth, bit), depth + 1),
    ensures
        shares_prefix(key, prefix, depth),
{
    let wb = with_bit(prefix, depth, bit);
    let i = depth / 8;
    let r = (depth % 8) as u8;
    lemma_mask_step(key[i], prefix[i], r, bit);
    assert(forall|j: int| 0 <= j < i ==> wb[j] == prefix[j]);
    if depth + 1 == 256 {
        assert(key == wb);
        assert(key[i] == wb[i]);
        assert(key[i] & 0xFFu8 == key[i]);
    } else if (depth + 1) % 8 == 0 {
        assert((depth + 1) / 8 == i + 1);
        assert(key[i] == wb[i]);
    } else {
        assert((depth + 1) / 8 == i);
        assert((depth + 1) % 8 == r + 1);
    }
}

/// A subtree below which no key lies has the hash of an empty subtree.
pub proof fn lemma_empty_subtree(entries: Map<Seq<u8>, Seq<u8>>, prefix: Seq<u8>, depth: nat)
    requires
        depth <= 256,
        prefix.len() == 32,
        nothing_below(entries, prefix, depth as int),
    ensures
        subtree_hash(entries, prefix, depth) == empty_hash(depth),
    decreases 256 - depth,
{
    if depth >= 256 {
        if entries.contains_key(prefix) {
            assert(shares_prefix(prefix, prefix, depth as int));
        }
    } else {
        let left = with_bit(prefix, depth as int, 0);
        let right = with_bit(prefix, depth as int, 1);
        assert forall|k: Seq<u8>| entries.contains_key(k) implies !shares_prefix(
            k,
            left,
            depth as int + 1,
        ) by {
            if shares_prefix(k, left, depth as int + 1) {
                lemma_shares_shorter(k, prefix, depth as int, 0);
            }
        }
        assert forall|k: Seq<u8>| entries.contains_key(k) implies !shares_prefix(
            k,
            right,
            depth as int + 1,
        ) by {
            if shares_prefix(k, right, depth as int + 1) {
                lemma_shares_shorter(k, prefix, depth as int, 1);
            }
        }
        lemma_empty_subtree(entries, left, depth + 1);
        lemma_empty_subtree(entries, right, depth + 1);
    }
}

/// Continuing the first `depth` bits of a key with its own next bit gives
/// its first `depth + 1` bits.
proof fn lemma_path_step(key: Seq<u8>, depth: int)
    requires
        0 <= depth < 256,
        key.len() == 32,
    ensures
        with_bit(clear_from(key, depth), depth, key_bit(key, depth)) == clear_from(key, depth + 1),
{
    let i = depth / 8;
    let r = (depth % 8) as u8;
    let b = key_bit(key, depth);
    lemma_mask_step(key[i], key[i], r, b);
    let lhs = with_bit(clear_from(key, depth), depth, b);
    let rhs = clear_from(key, depth + 1);
    assert(b == 0 || b == 1) by {
        let x = key[i];
        let s = (7 - r) as u8;
        assert(((x >> s) & 1u8) == 0 || ((x >> s) & 1u8) == 1) by (bit_vector);
    }
    assert forall|j: int| 0 <= j < 32 implies lhs[j] == rhs[j] by {
        if (depth + 1) % 8 == 0 {
            assert((depth + 1) / 8 == i + 1);
            if j == i + 1 {
                lemma_mask_step(key[j], key[j], 0, 0);
                assert(key[j] & high_mask(0) == 0) by {
                    let x = key[j];
                    assert(x & 0u8 == 0) by (bit_vector);
                }
            }
        } else {
            assert((depth + 1) / 8 == i);
            assert((depth + 1) % 8 == r + 1);
        }
    }
    assert(lhs =~= rhs);
}

/// Whether `siblings` are, depth by depth, the hashes of the subtrees of
/// `entries` that lie next to the path of `key`.
pub open spec fn siblings_fit(
    key: Seq<u8>,
    siblings: Seq<[u8; 32]>,
    entries: Map<Seq<u8>, Seq<u8>>,
) -> bool {
    &&& siblings.len() == 256
    &&& forall|d: int|
        0 <= d < 256 ==> (#[trigger] siblings[d])@ == subtree_hash(
            entries,
            with_bit(clear_from(key, d), d, (1 - key_bit(key, d)) as u8),
            (d + 1) as nat,
        )
}

/// The conditions under which a proof for `key` folds to the root of the
/// tree that holds `entries`: it claims what the tree holds at the key, and
/// each sibling is the hash of the subtree next to the key's path.
pub open spec fn proof_of(proof: Proof, entries: Map<Seq<u8>, Seq<u8>>) -> bool {
    &&& siblings_fit(proof.key@, proof.siblings@, entries)
    &&& proof.claimed() == lookup(entries, proof.key@)
    &&& !proof.present ==> proof.value@.len() == 0
}

/// Along the path of a key, the fold of its leaf through fitting siblings
/// gives the hash of the subtree at every depth.
proof fn lemma_path_matches(
    key: Seq<u8>,
    siblings: Seq<[u8; 32]>,
    entries: Map<Seq<u8>, Seq<u8>>,
    depth: nat,
)
    requires
        key.len() == 32,
        siblings_fit(key, siblings, entries),
        depth <= 256,
    ensures
        path_hash(leaf_of(key, lookup(entries, key)), key, siblings, depth) == subtree_hash(
            entries,
            clear_from(key, depth as int),
            depth,
        ),
    decreases 256 - depth,
{
    if depth >= 256 {
        assert(clear_from(key, 256) =~= key);
    } else {
        lemma_path_matches(key, siblings, entries, depth + 1);
        lemma_path_step(key, depth as int);
        let b = key_bit(key, depth as int);
        let x = key[depth as int / 8];
        let s = (7 - depth as int % 8) as u8;
        assert(((x >> s) & 1u8) == 0 || ((x >> s) & 1u8) == 1) by (bit_vector);
        assert(siblings[depth as int]@ == subtree_hash(
            entries,
            with_bit(clear_from(key, depth as int), depth as int, (1 - b) as u8),
            depth + 1,
        ));
        let here = clear_from(key, depth as int);
        assert(clear_from(here, depth as int) =~= here) by {
            let i = depth as int / 8;
            let r = (depth as int % 8) as u8;
            lemma_mask_step(key[i], key[i], r, 0);
            assert forall|j: int| 0 <= j < 32 implies clear_from(here, depth as int)[j]
                == here[j] by {
                if j > i {
                    assert(0u8 & high_mask(r) == 0u8 || j != i);
                }
            }
        }
        assert(with_bit(here, depth as int, b) == with_bit(key, depth as int, b)) by {
            assert(clear_from(here, depth as int) == clear_from(key, depth as int));
        }
        assert(with_bit(here, depth as int, (1 - b) as u8) == with_bit(
            key,
            depth as int,
            (1 - b) as u8,
        ));
    }
}

/// A proof that meets `proof_of` passes `verify_proof` against the root of
/// the tree, and what it claims is what the tree holds.
pub proof fn lemma_proof_verifies(proof: Proof, entries: Map<Seq<u8>, Seq<u8>>)
    requires
        proof_of(proof, entries),
    ensures
        proof.well_shaped(),
        proof.root() == tree_root(entries),
        proof.claimed() == lookup(entries, proof.key@),
{
    lemma_path_matches(proof.key@, proof.siblings@, entries, 0);
    assert(clear_from(proof.key@, 0) =~= ZERO32@) by {
        let x = proof.key@[0];
        assert(x & 0u8 == 0) by (bit_vector);
    }
}

proof fn lemma_flipped_bit(x: u8, y: u8, r: u8, b: u8)
    by (bit_vector)
    requires
        r < 8,
        b == ((x >> ((7 - r) as u8)) & 1u8),
    ensures
        ({
            let hm = if r == 0 {
                0u8
            } else {
                0xFFu8 << ((8 - r) as u8)
            };
            let hm1 = if r + 1 == 8 {
                0xFFu8
            } else {
                0xFFu8 << ((8 - (r + 1)) as u8)
            };
            let mark = 1u8 << ((7 - r) as u8);
            let base = (y & hm) & hm;
            let w = if b == 0 {
                base | mark
            } else {
                base & !mark
            };
            (x & hm1) != (w & hm1) && x != w
        }),
{
}

/// A key does not lie below the subtree next to its own path.
proof fn lemma_key_leaves_sibling(key: Seq<u8>, depth: int)
    requires
        0 <= depth < 256,
        key.len() == 32,
    ensures
        !shares_prefix(
            key,
            with_bit(clear_from(key, depth), depth, (1 - key_bit(key, depth)) as u8),
            depth + 1,
        ),
{
    let i = depth / 8;
    let r = (depth % 8) as u8;
    let b = key_bit(key, depth);
    let x = key[i];
    let s = (7 - r) as u8;
    assert(((x >> s) & 1u8) == 0 || ((x >> s) & 1u8) == 1) by (bit_vector);
    let here = clear_from(key, depth);
    let other = with_bit(here, depth, (1 - b) as u8);
    lemma_flipped_bit(x, x, r, b);
    assert(here[i] == (x & high_mask(r)));
    assert(clear_from(here, depth)[i] == ((x & high_mask(r)) & high_mask(r)));
    assert((1 - b) as u8 == 1 <==> b == 0);
    if depth + 1 == 256 {
        assert(other[i] != key[i]);
    } else if (depth + 1) % 8 == 0 {
        assert((depth + 1) / 8 == i + 1);
        assert(other[i] != key[i]);
    } else {
        assert((depth + 1) / 8 == i);
        assert((depth + 1) % 8 == r + 1);
    }
}

/// The hash of a subtree depends only on the keys that lie below it.
pub proof fn lemma_subtree_frame(
    first: Map<Seq<u8>, Seq<u8>>,
    second: Map<Seq<u8>, Seq<u8>>,
    prefix: Seq<u8>,
    depth: nat,
)
    requires
        depth <= 256,
        prefix.len() == 32,
        forall|k: Seq<u8>|
            shares_prefix(k, prefix, depth as int) ==> lookup(first, k) == lookup(second, k),
    ensures
        subtree_hash(first, prefix, depth) == subtree_hash(second, prefix, depth),
    decreases 256 - depth,
{
    if depth >= 256 {
        assert(shares_prefix(prefix, prefix, depth as int));
        assert(lookup(first, prefix) == lookup(second, prefix));
    } else {
        let left = with_bit(prefix, depth as int, 0);
        let right = with_bit(prefix, depth as int, 1);
        assert forall|k: Seq<u8>| shares_prefix(k, left, depth as int + 1) implies lookup(first, k)
            == lookup(second, k) by {
            lemma_shares_shorter(k, prefix, depth as int, 0);
        }
        assert forall|k: Seq<u8>| shares_prefix(k, right, depth as int + 1) implies lookup(
            first,
            k,
        ) == lookup(second, k) by {
            lemma_shares_shorter(k, prefix, depth as int, 1);
        }
        lemma_subtree_frame(first, second, left, depth + 1);
        lemma_subtree_frame(first, second, right, depth + 1);
    }
}

/// Writing through a proof gives the root of the tree after the write:
/// when a proof meets `proof_of` for some contents, the root that it folds
/// to with `value` at its leaf is the root of the tree that holds `value`
/// at the proof's key and is otherwise unchanged.
pub proof fn lemma_update_root(
    proof: Proof,
    entries: Map<Seq<u8>, Seq<u8>>,
    value: Option<Seq<u8>>,
)
    requires
        proof_of(proof, entries),
    ensures
        proof.root_with(value) == tree_root(store_put(entries, proof.key@, value)),
{
    let key = proof.key@;
    let updated = store_put(entries, key, value);
    assert forall|d: int| 0 <= d < 256 implies (#[trigger] proof.siblings@[d])@ == subtree_hash(
        updated,
        with_bit(clear_from(key, d), d, (1 - key_bit(key, d)) as u8),
        (d + 1) as nat,
    ) by {
        let beside = with_bit(clear_from(key, d), d, (1 - key_bit(key, d)) as u8);
        lemma_key_leaves_sibling(key, d);
        assert forall|k: Seq<u8>| shares_prefix(k, beside, d + 1) implies lookup(entries, k)
            == lookup(updated, k) by {
            assert(k != key);
        }
        lemma_subtree_frame(entries, updated, beside, (d + 1) as nat);
    }
    assert(lookup(updated, key) == value);
    lemma_path_matches(key, proof.siblings@, updated, 0);
    assert(clear_from(key, 0) =~= ZERO32@) by {
        let x = key[0];
        assert(x & 0u8 == 0) by (bit_vector);
    }
}

/// A sparse Merkle tree of depth 256 that holds its present keys in a map
/// and computes hashes on demand.
pub struct SparseMerkleTree {
    values: ValueTable,
    empty_hashes: EmptyHashes,
}

/// The hash of an empty subtree at each depth from 0 to 256, computed once.
struct EmptyHashes {
    hashes: Vec<[u8; 32]>,
}

impl EmptyHashes {
    #[verifier::type_invariant]
    spec fn ready(self) -> bool {
        empty_hashes_ready(self.hashes@)
    }

    /// Hashes upward from the zero leaf at depth 256 to the empty root at depth 0.
    fn new() -> (table: Self)
        ensures
            empty_hashes_ready(table.hashes@),
    {
        let mut hashes: Vec<[u8; 32]> = Vec::new();
        let mut n: usize = 0;
        while n < 257
            invariant
                n <= 257,
                hashes@.len() == n,
                forall|d: int| 0 <= d < n ==> (#[trigger] hashes@[d])@ == ZERO32@,
            decreases 257 - n,
        {
            hashes.push(ZERO32);
            n += 1;
        }
        let mut depth: usize = 256;
        while depth > 0
            invariant
                depth <= 256,
                hashes@.len() == 257,
                forall|d: int|
                    depth <= d <= 256 ==> (#[trigger] hashes@[d])@ == empty_hash(d as nat),
            decreases depth,
        {
            depth = depth - 1;
            let child = hashes[depth + 1];
            hashes[depth] = node_hash(&child, &child);
        }
        Self { hashes }
    }

    /// The hash of an empty subtree at `depth`.
    fn at(&self, depth: u16) -> (hash: [u8; 32])
        requires
            depth <= 256,
        ensures
            hash@ == empty_hash(depth as nat),
    {
        proof {
            use_type_invariant(self);
        }
        self.hashes[depth as usize]
    }
}

/// Whether `hashes` holds, for each depth from 0 to 256, the hash of an
/// empty subtree at that depth.
pub open spec fn empty_hashes_ready(hashes: Seq<[u8; 32]>) -> bool {
    &&& hashes.len() == 257
    &&& forall|d: int| 0 <= d <= 256 ==> (#[trigger] hashes[d])@ == empty_hash(d as nat)
}

/// The first `bits` bits of `key`, followed by zeros.
fn prefix_with_len(key: &[u8; 32], bits: u16) -> (out: [u8; 32])
    requires
        bits <= 256,
    ensures
        out@ == clear_from(key@, bits as int),
{
    if bits >= 256 {
        assert(clear_from(key@, 256) =~= key@);
        return *key;
    }
    let mut out = *key;
    let byte_index: usize = (bits / 8) as usize;
    let bit_index: u8 = (bits % 8) as u8;
    let mask: u8 = if bit_index == 0 {
        0
    } else {
        0xFFu8 << (8 - bit_index)
    };
    out[byte_index] = key[byte_index] & mask;
    let mut i: usize = byte_index + 1;
    while i < 32
        invariant
            byte_index < i <= 32,
            forall|j: int| 0 <= j < byte_index ==> out@[j] == key@[j],
            out@[byte_index as int] == key@[byte_index as int] & mask,
            forall|j: int| byte_index < j < i ==> out@[j] == 0,
        decreases 32 - i,
    {
        out[i] = 0;
        i += 1;
    }
    assert(out@ =~= clear_from(key@, bits as int));
    out
}

/// The prefix of length `depth + 1` that continues `prefix` with `bit`.
fn extend_prefix(prefix: &[u8; 32], depth: u16, bit: u8) -> (out: [u8; 32])
    requires
        depth < 256,
    ensures
        out@ == with_bit(prefix@, depth as int, bit),
{
    let mut out = prefix_with_len(prefix, depth);
    let byte_index: usize = (depth / 8) as usize;
    let bit_index: u8 = 7 - (depth % 8) as u8;
    let mark: u8 = 1u8 << bit_index;
    let byte = out[byte_index];
    if bit == 1 {
        out[byte_index] = byte | mark;
    } else {
        out[byte_index] = byte & !mark;
    }
    assert(out@ =~= with_bit(prefix@, depth as int, bit));
    out
}

/// Whether `key` and `prefix` agree on their first `depth` bits.
fn prefix_matches(key: &[u8; 32], prefix: &[u8; 32], depth: u16) -> (same: bool)
    ensures
        same == shares_prefix(key@, prefix@, depth as int),
{
    if depth == 0 {
        return true;
    }
    if depth >= 256 {
        return same_bytes(key.as_slice(), prefix.as_slice());
    }
    let full_bytes: usize = (depth / 8) as usize;
    let rem_bits: u8 = (depth % 8) as u8;
    let mut i: usize = 0;
    while i < full_bytes
        invariant
            i <= full_bytes < 32,
            0 < depth < 256,
            full_bytes == depth / 8,
            forall|j: int| 0 <= j < i ==> key@[j] == prefix@[j],
        decreases full_bytes - i,
    {
        if key[i] != prefix[i] {
            return false;
        }
        i += 1;
    }
    if rem_bits == 0 {
        return true;
    }
    let mask: u8 = 0xFFu8 << (8 - rem_bits);
    key[full_bytes] & mask == prefix[full_bytes] & mask
}

/// Whether some key of the table lies below `prefix` at `depth`.
fn has_value(values: &ValueTable, prefix: &[u8; 32], depth: u16) -> (found: bool)
    ensures
        found == !nothing_below(table_entries(*values), prefix@, depth as int),
{
    let keys = table_keys(values);
    let mut i: usize = 0;
    while i < keys.len()
        invariant
            i <= keys@.len(),
            forall|k: Seq<u8>|
                table_entries(*values).contains_key(k) <==> exists|i: int|
                    0 <= i < keys@.len() && (#[trigger] keys@[i])@ == k,
            forall|j: int|
                0 <= j < i ==> !shares_prefix((#[trigger] keys@[j])@, prefix@, depth as int),
        decreases keys@.len() - i,
    {
        if prefix_matches(&keys[i], prefix, depth) {
            assert(table_entries(*values).contains_key(keys@[i as int]@));
            return true;
        }
        i += 1;
    }
    false
}

/// The hash of the subtree below `prefix` at `depth`, taken from the memo
/// when it is there and computed and remembered otherwise. A child below
/// which no key lies is not visited: its hash is read from `empty_hashes`.
fn compute_hash(
    values: &ValueTable,
    empty_hashes: &EmptyHashes,
    memo: &mut HashMemo,
    prefix: [u8; 32],
    depth: u16,
) -> (hash: [u8; 32])
    requires
        depth <= 256,
        memo_sound(memo_entries(*old(memo)), table_entries(*values)),
    ensures
        hash@ == subtree_hash(table_entries(*values), prefix@, depth as nat),
        memo_sound(memo_entries(*final(memo)), table_entries(*values)),
    decreases 256 - depth,
{
    let ghost entries = table_entries(*values);
    match memo_get(memo, depth, &prefix) {
        Some(hash) => {
            return hash;
        },
        None => {},
    }
    let hash = if depth == 256 {
        match table_get(values, &prefix) {
            Some(bytes) => leaf_hash(&prefix, bytes.as_slice()),
            None => leaf_hash_absent(),
        }
    } else {
        let left_prefix = extend_prefix(&prefix, depth, 0);
        let right_prefix = extend_prefix(&prefix, depth, 1);
        let left = if has_value(values, &left_prefix, depth + 1) {
            compute_hash(values, empty_hashes, memo, left_prefix, depth + 1)
        } else {
            proof {
                lemma_empty_subtree(entries, left_prefix@, (depth + 1) as nat);
            }
            empty_hashes.at(depth + 1)
        };
        let right = if has_value(values, &right_prefix, depth + 1) {
            compute_hash(values, empty_hashes, memo, right_prefix, depth + 1)
        } else {
            proof {
                lemma_empty_subtree(entries, right_prefix@, (depth + 1) as nat);
            }
            empty_hashes.at(depth + 1)
        };
        node_hash(&left, &right)
    };
    memo_insert(memo, depth, prefix, hash);
    hash
}

impl SparseMerkleTree {
    /// The keys that the tree holds, each with its value.
    pub closed spec fn entries(&self) -> Map<Seq<u8>, Seq<u8>> {
        table_entries(self.values)
    }

    /// A tree that holds no key.
    pub fn new() -> (tree: Self)
        ensures
            tree.entries() =~= Map::empty(),
    {
        let empty_hashes = EmptyHashes::new();
        Self { values: table_new(), empty_hashes }
    }

    /// The root of the tree.
    pub fn root(&self) -> (root: [u8; 32])
        ensures
            root@ == tree_root(self.entries()),
    {
        let mut memo = memo_new();
        compute_hash(&self.values, &self.empty_hashes, &mut memo, ZERO32, 0)
    }

    /// The value that the tree holds at `key`, if any.
    pub fn get(&self, key: [u8; 32]) -> (value: Option<Vec<u8>>)
        ensures
            value is Some == self.entries().contains_key(key@),
            value matches Some(v) ==> v@ == self.entries()[key@],
    {
        table_get(&self.values, &key)
    }

    /// Stores `value` at `key`, or removes the key when `value` is `None`.
    pub fn update(&mut self, key: [u8; 32], value: Option<Vec<u8>>)
        ensures
            final(self).entries() == match value {
                Some(v) => old(self).entries().insert(key@, v@),
                None => old(self).entries().remove(key@),
            },
    {
        match value {
            Some(bytes) => {
                table_insert(&mut self.values, key, bytes);
            },
            None => {
                table_remove(&mut self.values, &key);
            },
        }
    }

    /// The proof for `key` in the tree as it is: what the tree holds at the
    /// key, and the hash of the subtree next to the key's path at each depth.
    /// The proof passes `verify_proof` against `self.root()`.
    pub fn prove(&self, key: [u8; 32]) -> (proof: Proof)
        ensures
            proof.key == key,
            proof_of(proof, self.entries()),
            proof.well_shaped(),
            proof.root() == tree_root(self.entries()),
    {
        let mut memo = memo_new();
        let mut siblings: Vec<[u8; 32]> = Vec::new();
        let mut depth: u16 = 0;
        while depth < 256
            invariant
                depth <= 256,
                siblings@.len() == depth,
                memo_sound(memo_entries(memo), table_entries(self.values)),
                forall|d: int|
                    0 <= d < depth ==> (#[trigger] siblings@[d])@ == subtree_hash(
                        table_entries(self.values),
                        with_bit(clear_from(key@, d), d, (1 - key_bit(key@, d)) as u8),
                        (d + 1) as nat,
                    ),
            decreases 256 - depth,
        {
            let bit = get_bit(&key, depth);
            let prefix = prefix_with_len(&key, depth);
            let other: u8 = if bit == 0 {
                1
            } else {
                0
            };
            let sibling_prefix = extend_prefix(&prefix, depth, other);
            let hash = compute_hash(
                &self.values,
                &self.empty_hashes,
                &mut memo,
                sibling_prefix,
                depth + 1,
            );
            siblings.push(hash);
            depth += 1;
        }
        let (value, present) = match table_get(&self.values, &key) {
            Some(bytes) => (bytes, true),
            None => (Vec::new(), false),
        };
        let proof = Proof { key, value, present, siblings };
        proof {
            assert(siblings_fit(proof.key@, proof.siblings@, self.entries()));
            lemma_proof_verifies(proof, self.entries());
        }
        proof
    }
}

} // verus!
