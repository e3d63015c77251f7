use tiny_keccak::Hasher;
use tiny_keccak::Keccak;
use vstd::prelude::*;

verus! {

/// The Keccak-256 digest of `data`: the one hash function of the system.
pub uninterp spec fn keccak_digest(data: Seq<u8>) -> Seq<u8>;

/// Hashes `data` with `tiny_keccak::Keccak::v256`: one `update` with the
/// whole input, then `finalize` into 32 bytes. The digest depends on the
/// input bytes alone; nothing else is claimed of it.
#[verifier::external_body]
pub fn keccak256(data: &[u8]) -> (digest: [u8; 32])
    ensures
        digest@ == keccak_digest(data@),
{
    let mut hasher = Keccak::v256();
    let mut out = [0u8; 32];
    hasher.update(data);
    hasher.finalize(&mut out);
    out
}

} // verus!
