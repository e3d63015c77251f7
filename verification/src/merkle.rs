use crate::bytes::append;
use crate::bytes::same_bytes;
use crate::constants::ZERO32;
use crate::errors::CoreError;
use crate::hash::keccak256;
use crate::hash::keccak_digest;
pub use crate::tree::SparseMerkleTree;
use vstd::prelude::*;

verus! {

/// What authenticates one key of the tree: the key, whether it is present,
/// its value, and the 256 sibling hashes of its path. `siblings[d]` is the
/// sibling of the path's node at depth `d + 1`, so the last one is the
/// sibling of the leaf.
#[derive(Clone, Debug)]
pub struct Proof {
    pub key: [u8; 32],
    pub value: Vec<u8>,
    pub present: bool,
    pub siblings: Vec<[u8; 32]>,
}

/// What a failed check may show about a proof.
#[derive(Clone, Debug)]
pub struct ProofDebugInfo {
    pub leaf_hash: [u8; 32],
    pub computed_root: [u8; 32],
    pub first_mismatch_depth: Option<u16>,
}

/// The hash of a present leaf: `keccak(0x00 ∥ key ∥ keccak(value))`.
pub open spec fn leaf_hash_spec(key: Seq<u8>, value: Seq<u8>) -> Seq<u8> {
    keccak_digest(seq![0u8] + key + keccak_digest(value))
}

/// The hash of an inner node: `keccak(0x01 ∥ left ∥ right)`.
pub open spec fn node_hash_spec(left: Seq<u8>, right: Seq<u8>) -> Seq<u8> {
    keccak_digest(seq![1u8] + left + right)
}

/// Bit `depth` of a key, counted from the high bit of the first byte.
pub open spec fn key_bit(key: Seq<u8>, depth: int) -> u8 {
    (key[depth / 8] >> ((7 - depth % 8) as u8)) & 1u8
}

/// The hash of a leaf as a proof or a tree sees it: 32 zero bytes when the
/// key is absent.
pub open spec fn leaf_of(key: Seq<u8>, value: Option<Seq<u8>>) -> Seq<u8> {
    match value {
        Some(v) => leaf_hash_spec(key, v),
        None => ZERO32@,
    }
}

/// The hash of the path's node at `depth`, folded upward from `leaf` with
/// the siblings below that depth. At each depth the path is the left child
/// when the key's bit is 0 and the right child otherwise.
pub open spec fn path_hash(leaf: Seq<u8>, key: Seq<u8>, siblings: Seq<[u8; 32]>, depth: nat) -> Seq<
    u8,
>
    decreases 256 - depth,
{
    if depth >= 256 {
        leaf
    } else {
        let below = path_hash(leaf, key, siblings, depth + 1);
        if key_bit(key, depth as int) == 0 {
            node_hash_spec(below, siblings[depth as int]@)
        } else {
            node_hash_spec(siblings[depth as int]@, below)
        }
    }
}

impl Proof {
    /// The value the proof claims for its key: `None` when absent.
    pub open spec fn claimed(&self) -> Option<Seq<u8>> {
        if self.present {
            Some(self.value@)
        } else {
            None
        }
    }

    /// Whether the proof has 256 siblings and, when it claims absence, no value bytes.
    pub open spec fn well_shaped(&self) -> bool {
        self.siblings@.len() == 256 && (!self.present ==> self.value@.len() == 0)
    }

    /// The root that the proof gives when its leaf holds `value`.
    pub open spec fn root_with(&self, value: Option<Seq<u8>>) -> Seq<u8> {
        path_hash(leaf_of(self.key@, value), self.key@, self.siblings@, 0)
    }

    /// The root that the proof itself stands for.
    pub open spec fn root(&self) -> Seq<u8> {
        self.root_with(self.claimed())
    }

    pub fn new(key: [u8; 32], value: Vec<u8>, present: bool, siblings: Vec<[u8; 32]>) -> (p: Self)
        ensures
            p.key == key,
            p.value == value,
            p.present == present,
            p.siblings == siblings,
    {
        Self { key, value, present, siblings }
    }
}

/// Hashes a present leaf.
pub fn leaf_hash(key: &[u8; 32], value: &[u8]) -> (h: [u8; 32])
    ensures
        h@ == leaf_hash_spec(key@, value@),
{
    let value_hash = keccak256(value);
    let mut buf: Vec<u8> = Vec::new();
    buf.push(0x00);
    append(&mut buf, key.as_slice());
    append(&mut buf, value_hash.as_slice());
    proof {
        assert(buf@ =~= seq![0u8] + key@ + value_hash@);
    }
    keccak256(buf.as_slice())
}

/// The hash of an absent leaf: 32 zero bytes.
pub fn leaf_hash_absent() -> (h: [u8; 32])
    ensures
        h@ == ZERO32@,
{
    ZERO32
}

/// Hashes an inner node from its two children.
pub fn node_hash(left: &[u8; 32], right: &[u8; 32]) -> (h: [u8; 32])
    ensures
        h@ == node_hash_spec(left@, right@),
{
    let mut buf: Vec<u8> = Vec::new();
    buf.push(0x01);
    append(&mut buf, left.as_slice());
    append(&mut buf, right.as_slice());
    proof {
        assert(buf@ =~= seq![1u8] + left@ + right@);
    }
    keccak256(buf.as_slice())
}

/// Bit `depth` of `key`, counted from the high bit of the first byte.
pub fn get_bit(key: &[u8; 32], depth: u16) -> (b: u8)
    requires
        depth < 256,
    ensures
        b == key_bit(key@, depth as int),
        b == 0 || b == 1,
{
    let byte_index: usize = (depth / 8) as usize;
    let bit_index: u8 = 7 - (depth % 8) as u8;
    let byte: u8 = key[byte_index];
    assert(((byte >> bit_index) & 1u8) == 0 || ((byte >> bit_index) & 1u8) == 1) by (bit_vector);
    (byte >> bit_index) & 1
}

/// Folds `leaf` upward along the path of `key` through all 256 siblings.
fn fold_path(leaf: [u8; 32], key: &[u8; 32], siblings: &Vec<[u8; 32]>) -> (root: [u8; 32])
    requires
        siblings@.len() == 256,
    ensures
        root@ == path_hash(leaf@, key@, siblings@, 0),
{
    fold_from(leaf, key, siblings, 256)
}

/// Folds the hash `cur` of the path's node at depth `from` upward to the root.
fn fold_from(cur: [u8; 32], key: &[u8; 32], siblings: &Vec<[u8; 32]>, from: u16) -> (root: [
    u8;
    32
])
    requires
        siblings@.len() == 256,
        from <= 256,
    ensures
        forall|leaf: Seq<u8>|
            path_hash(leaf, key@, siblings@, from as nat) == cur@ ==> #[trigger] path_hash(
                leaf,
                key@,
                siblings@,
                0,
            ) == root@,
{
    let mut cur = cur;
    let mut depth: u16 = from;
    let ghost start = cur@;
    while depth > 0
        invariant
            depth <= from <= 256,
            siblings@.len() == 256,
            forall|leaf: Seq<u8>|
                path_hash(leaf, key@, siblings@, from as nat) == start ==> #[trigger] path_hash(
                    leaf,
                    key@,
                    siblings@,
                    depth as nat,
                ) == cur@,
        decreases depth,
    {
        depth = depth - 1;
        let sibling = &siblings[depth as usize];
        let bit = get_bit(key, depth);
        let next = if bit == 0 {
            node_hash(&cur, sibling)
        } else {
            node_hash(sibling, &cur)
        };
        proof {
            assert forall|leaf: Seq<u8>|
                path_hash(leaf, key@, siblings@, from as nat) == start implies #[trigger] path_hash(
                leaf,
                key@,
                siblings@,
                depth as nat,
            ) == next@ by {
                assert(path_hash(leaf, key@, siblings@, (depth + 1) as nat) == cur@);
            }
        }
        cur = next;
    }
    cur
}

/// Checks a proof against a root.
///
/// Fails with `Invalid` when the proof does not have 256 siblings or claims
/// absence with value bytes; with `State` when it is well shaped but folds
/// to another root; and returns the root otherwise.
pub fn verify_proof(root: &[u8; 32], proof: &Proof) -> (r: Result<[u8; 32], CoreError>)
    ensures
        match r {
            Ok(h) => h@ == root@ && proof.well_shaped() && proof.root() == root@,
            Err(e) => if proof.well_shaped() {
                e is State && proof.root() != root@
            } else {
                e is Invalid
            },
        },
{
    if proof.siblings.len() != 256 {
        return Err(CoreError::Invalid("invalid proof length"));
    }
    if !proof.present && !proof.value.is_empty() {
        return Err(CoreError::Invalid("absent proof has value bytes"));
    }
    let leaf = if proof.present {
        leaf_hash(&proof.key, proof.value.as_slice())
    } else {
        leaf_hash_absent()
    };
    let cur = fold_path(leaf, &proof.key, &proof.siblings);
    if !same_bytes(cur.as_slice(), root.as_slice()) {
        return Err(CoreError::State("merkle proof root mismatch"));
    }
    Ok(cur)
}

/// Checks a proof as `verify_proof` does and reports the leaf hash and the
/// root that it folds to. At every depth the remaining fold is repeated to
/// find the first depth whose subtree disagrees with `root`; a proof that
/// passes has none.
pub fn verify_proof_debug(root: &[u8; 32], proof: &Proof) -> (r: Result<ProofDebugInfo, CoreError>)
    ensures
        match r {
            Ok(info) => proof.well_shaped() && proof.root() == root@ && info.computed_root@
                == root@ && info.leaf_hash@ == leaf_of(proof.key@, proof.claimed())
                && info.first_mismatch_depth is None,
            Err(e) => if proof.well_shaped() {
                e is State && proof.root() != root@
            } else {
                e is Invalid
            },
        },
{
    if proof.siblings.len() != 256 {
        return Err(CoreError::Invalid("invalid proof length"));
    }
    if !proof.present && !proof.value.is_empty() {
        return Err(CoreError::Invalid("absent proof has value bytes"));
    }
    let leaf = if proof.present {
        leaf_hash(&proof.key, proof.value.as_slice())
    } else {
        leaf_hash_absent()
    };
    let mut cur = leaf;
    let mut first_mismatch_depth: Option<u16> = None;
    let mut depth: u16 = 256;
    while depth > 0
        invariant
            depth <= 256,
            proof.siblings@.len() == 256,
            cur@ == path_hash(leaf@, proof.key@, proof.siblings@, depth as nat),
            first_mismatch_depth is Some ==> path_hash(leaf@, proof.key@, proof.siblings@, 0)
                != root@,
        decreases depth,
    {
        depth = depth - 1;
        let sibling = &proof.siblings[depth as usize];
        let bit = get_bit(&proof.key, depth);
        cur = if bit == 0 {
            node_hash(&cur, sibling)
        } else {
            node_hash(sibling, &cur)
        };
        if first_mismatch_depth.is_none() {
            let tmp = fold_from(cur, &proof.key, &proof.siblings, depth);
            if !same_bytes(tmp.as_slice(), root.as_slice()) {
                first_mismatch_depth = Some(depth);
            }
        }
    }
    if !same_bytes(cur.as_slice(), root.as_slice()) {
        return Err(CoreError::State("merkle proof root mismatch"));
    }
    Ok(ProofDebugInfo { leaf_hash: leaf, computed_root: cur, first_mismatch_depth })
}

/// Checks a proof against `root` and gives the root of the tree in which
/// the proof's key holds `new_value` (`None` removes the key) and nothing
/// else has changed.
///
/// Fails as `verify_proof` does, and on the same proofs.
pub fn apply_proof(root: &[u8; 32], proof: &Proof, new_value: Option<Vec<u8>>) -> (r: Result<
    [u8; 32],
    CoreError,
>)
    ensures
        match r {
            Ok(h) => proof.well_shaped() && proof.root() == root@ && h@ == proof.root_with(
                match new_value {
                    Some(v) => Some(v@),
                    None => None,
                },
            ),
            Err(e) => if proof.well_shaped() {
                e is State && proof.root() != root@
            } else {
                e is Invalid
            },
        },
{
    if proof.siblings.len() != 256 {
        return Err(CoreError::Invalid("invalid proof length"));
    }
    let old_root = verify_proof(root, proof)?;
    let new_leaf = match &new_value {
        Some(bytes) => leaf_hash(&proof.key, bytes.as_slice()),
        None => leaf_hash_absent(),
    };
    let cur = fold_path(new_leaf, &proof.key, &proof.siblings);
    if !same_bytes(old_root.as_slice(), root.as_slice()) {
        return Err(CoreError::State("root changed during apply"));
    }
    Ok(cur)
}

} // verus!
