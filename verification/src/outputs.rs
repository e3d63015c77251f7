use crate::constants::ZERO32;
use crate::merkle::node_hash;
use crate::merkle::node_hash_spec;
use vstd::prelude::*;

verus! {

/// The hashes of `level` as plain byte strings.
pub open spec fn hashes(level: Seq<[u8; 32]>) -> Seq<Seq<u8>> {
    Seq::new(level.len(), |i: int| level[i]@)
}

/// The level above `level` in the output tree: neighbours are hashed in
/// pairs from the left, and a last node without a neighbour is paired
/// with itself.
pub open spec fn level_above(level: Seq<Seq<u8>>) -> Seq<Seq<u8>> {
    Seq::new(
        ((level.len() + 1) / 2) as nat,
        |i: int|
            node_hash_spec(
                level[2 * i],
                if 2 * i + 1 < level.len() {
                    level[2 * i + 1]
                } else {
                    level[2 * i]
                },
            ),
    )
}

/// The root of the output tree over `leaves`: 32 zero bytes for no leaf,
/// the leaf itself for one, and otherwise the root of the level above.
pub open spec fn output_root(leaves: Seq<Seq<u8>>) -> Seq<u8>
    decreases leaves.len(),
{
    if leaves.len() == 0 {
        ZERO32@
    } else if leaves.len() == 1 {
        leaves[0]
    } else {
        output_root(level_above(leaves))
    }
}

/// The root that commits to `leaves` in their order.
pub fn merkle_root(leaves: &[[u8; 32]]) -> (root: [u8; 32])
    ensures
        root@ == output_root(hashes(leaves@)),
{
    if leaves.len() == 0 {
        return ZERO32;
    }
    let mut level: Vec<[u8; 32]> = Vec::new();
    let mut c: usize = 0;
    while c < leaves.len()
        invariant
            c <= leaves@.len(),
            level@ == leaves@.take(c as int),
        decreases leaves@.len() - c,
    {
        level.push(leaves[c]);
        c += 1;
        proof {
            assert(level@ =~= leaves@.take(c as int));
        }
    }
    proof {
        assert(level@ =~= leaves@);
    }
    while level.len() > 1
        invariant
            level@.len() >= 1,
            output_root(hashes(level@)) == output_root(hashes(leaves@)),
        decreases level@.len(),
    {
        let mut next: Vec<[u8; 32]> = Vec::new();
        let mut i: usize = 0;
        while i < level.len()
            invariant
                i <= level@.len(),
                i < level@.len() ==> i % 2 == 0,
                next@.len() == (i + 1) / 2,
                forall|j: int|
                    0 <= j < next@.len() ==> (#[trigger] next@[j])@ == level_above(
                        hashes(level@),
                    )[j],
            decreases level@.len() - i,
        {
            let left = level[i];
            if level.len() - i >= 2 {
                let right = level[i + 1];
                next.push(node_hash(&left, &right));
                i += 2;
            } else {
                next.push(node_hash(&left, &left));
                i += 1;
            }
        }
        proof {
            assert(hashes(next@) =~= level_above(hashes(level@)));
        }
        level = next;
    }
    proof {
        assert(hashes(level@)[0] == level@[0]@);
    }
    level[0]
}

} // verus!
