use crate::bytes::append;
use crate::bytes::array20;
use crate::bytes::be_bytes;
use crate::bytes::same_bytes;
use crate::bytes::write_be;
use crate::constants::BATCH_TAG;
use crate::constants::DOMAIN_TAG;
use crate::errors::CoreError;
use crate::hash::keccak256;
use crate::hash::keccak_digest;
use crate::input::Message;
use crate::input::MessageSignature;
use crate::input::Rules;
use crate::state::option_bytes;
use crate::wide::two_256;
use crate::wide::U256;
use k256::ecdsa::RecoveryId;
use k256::ecdsa::Signature;
use k256::ecdsa::VerifyingKey;
use vstd::prelude::*;

verus! {

/// The domain separator of a market: `keccak(tag ∥ chain_id ∥ venue_id ∥ market_id)`.
pub open spec fn domain_separator_spec(chain_id: u64, venue_id: Seq<u8>, market_id: Seq<u8>) -> Seq<
    u8,
> {
    keccak_digest(DOMAIN_TAG@ + be_bytes(chain_id as nat, 8) + venue_id + market_id)
}

/// The hash that a trader signs:
/// `keccak(0x19 ∥ 0x01 ∥ domain_separator ∥ keccak(signed bytes))`.
pub open spec fn message_hash_spec(domain_separator: Seq<u8>, message: Message) -> Seq<u8> {
    keccak_digest(seq![0x19u8, 0x01u8] + domain_separator + keccak_digest(message.signed_bytes()))
}

/// All the hashes of `hashes`, one after another.
pub open spec fn joined(hashes: Seq<[u8; 32]>) -> Seq<u8>
    decreases hashes.len(),
{
    if hashes.len() == 0 {
        Seq::empty()
    } else {
        joined(hashes.drop_last()) + hashes.last()@
    }
}

/// The digest of a batch:
/// `keccak(tag ∥ domain_separator ∥ batch_seq ∥ keccak(message hashes))`.
pub open spec fn batch_digest_spec(
    domain_separator: Seq<u8>,
    batch_seq: u64,
    message_hashes: Seq<[u8; 32]>,
) -> Seq<u8> {
    keccak_digest(
        BATCH_TAG@ + domain_separator + be_bytes(batch_seq as nat, 8) + keccak_digest(
            joined(message_hashes),
        ),
    )
}

/// The uncompressed public key, with its prefix byte, that
/// signed `prehash` with the scalars `r` and `s`, if the scalars form a
/// signature and a key can be recovered for `recovery_id`.
pub uninterp spec fn recovered_key(prehash: Seq<u8>, r: Seq<u8>, s: Seq<u8>, recovery_id: u8) -> Option<
    Seq<u8>,
>;

/// Recovers a public key with the `k256` crate: `Signature::from_slice`
/// on `r ∥ s`, `RecoveryId::from_byte`, `VerifyingKey::recover_from_prehash`,
/// and `to_encoded_point(false)` for the uncompressed bytes of the key.
/// `None` when any of the first three refuses. The outcome depends on the
/// four arguments alone; nothing else is claimed of it.
#[verifier::external_body]
fn recover_key(prehash: &[u8; 32], r: &[u8; 32], s: &[u8; 32], recovery_id: u8) -> (key: Option<
    Vec<u8>,
>)
    ensures
        option_bytes(key) == recovered_key(prehash@, r@, s@, recovery_id),
{
    let mut bytes = [0u8; 64];
    bytes[..32].copy_from_slice(r);
    bytes[32..].copy_from_slice(s);
    let signature = Signature::from_slice(&bytes).ok()?;
    let id = RecoveryId::from_byte(recovery_id)?;
    let key = VerifyingKey::recover_from_prehash(prehash, &signature, id).ok()?;
    Some(key.to_encoded_point(false).as_bytes().to_vec())
}

/// The recovery id that the byte `v` of a signature stands for: 0 and 1
/// as they are, 27 and 28 less 27, nothing else.
pub open spec fn recovery_id_of(v: u8) -> Option<u8> {
    if v == 0 || v == 1 {
        Some(v)
    } else if v == 27 || v == 28 {
        Some((v - 27) as u8)
    } else {
        None
    }
}

/// The address of an uncompressed public key: the last 20 bytes of the
/// hash of the key without its prefix byte. `None` unless the key is 65
/// bytes long.
pub open spec fn address_of_key(key: Seq<u8>) -> Option<Seq<u8>> {
    if key.len() == 65 {
        Some(keccak_digest(key.skip(1)).subrange(12, 32))
    } else {
        None
    }
}

/// The address that signed `hash` with `sig`, if there is one.
pub open spec fn recover_address_spec(hash: Seq<u8>, sig: MessageSignature) -> Option<Seq<u8>> {
    match recovery_id_of(sig.v) {
        Some(id) => match recovered_key(hash, sig.r@, sig.s@, id) {
            Some(key) => address_of_key(key),
            None => None,
        },
        None => None,
    }
}

/// Whether `sig` is the signature of `expected` on `message` under the
/// domain separator.
pub open spec fn signed_by(
    domain_separator: Seq<u8>,
    message: Message,
    sig: MessageSignature,
    expected: Seq<u8>,
) -> bool {
    recover_address_spec(message_hash_spec(domain_separator, message), sig) == Some(expected)
}

pub fn domain_separator(chain_id: u64, venue_id: &[u8; 32], market_id: &[u8; 32]) -> (h: [u8; 32])
    ensures
        h@ == domain_separator_spec(chain_id, venue_id@, market_id@),
{
    let mut buf: Vec<u8> = Vec::new();
    append(&mut buf, DOMAIN_TAG.as_slice());
    write_be(&mut buf, chain_id as u128, 8);
    append(&mut buf, venue_id.as_slice());
    append(&mut buf, market_id.as_slice());
    proof {
        assert(buf@ =~= DOMAIN_TAG@ + be_bytes(chain_id as nat, 8) + venue_id@ + market_id@);
    }
    keccak256(buf.as_slice())
}

/// The hash of the rules: `keccak` of their encoding.
pub fn rules_hash(rules: &Rules) -> (h: [u8; 32])
    ensures
        h@ == keccak_digest(rules.encoded()),
{
    let bytes = rules.encode();
    keccak256(bytes.as_slice())
}

pub fn message_hash(domain_separator: &[u8; 32], message: &Message) -> (h: [u8; 32])
    ensures
        h@ == message_hash_spec(domain_separator@, *message),
{
    let msg_bytes = message.encode_signed();
    let msg_struct = keccak256(msg_bytes.as_slice());
    let mut buf: Vec<u8> = Vec::new();
    buf.push(0x19);
    buf.push(0x01);
    append(&mut buf, domain_separator.as_slice());
    append(&mut buf, msg_struct.as_slice());
    proof {
        assert(buf@ =~= seq![0x19u8, 0x01u8] + domain_separator@ + msg_struct@);
    }
    keccak256(buf.as_slice())
}

pub fn batch_digest(domain_separator: &[u8; 32], batch_seq: u64, message_hashes: &[[u8; 32]]) -> (h:
    [u8; 32])
    ensures
        h@ == batch_digest_spec(domain_separator@, batch_seq, message_hashes@),
{
    let mut msg_concat: Vec<u8> = Vec::new();
    let mut i: usize = 0;
    proof {
        assert(message_hashes@.take(0) =~= Seq::<[u8; 32]>::empty());
    }
    while i < message_hashes.len()
        invariant
            i <= message_hashes@.len(),
            msg_concat@ == joined(message_hashes@.take(i as int)),
        decreases message_hashes@.len() - i,
    {
        append(&mut msg_concat, message_hashes[i].as_slice());
        proof {
            let next = message_hashes@.take(i + 1);
            assert(next.drop_last() =~= message_hashes@.take(i as int));
            assert(next.last() == message_hashes@[i as int]);
        }
        i += 1;
    }
    proof {
        assert(message_hashes@.take(message_hashes@.len() as int) =~= message_hashes@);
    }
    let inner = keccak256(msg_concat.as_slice());
    let mut buf: Vec<u8> = Vec::new();
    append(&mut buf, BATCH_TAG.as_slice());
    append(&mut buf, domain_separator.as_slice());
    write_be(&mut buf, batch_seq as u128, 8);
    append(&mut buf, inner.as_slice());
    proof {
        assert(buf@ =~= BATCH_TAG@ + domain_separator@ + be_bytes(batch_seq as nat, 8) + inner@);
    }
    keccak256(buf.as_slice())
}

/// The address of an uncompressed public key.
pub fn address_from_key(key: &[u8]) -> (r: Result<[u8; 20], CoreError>)
    ensures
        match r {
            Ok(addr) => address_of_key(key@) == Some(addr@),
            Err(e) => e is Signature && address_of_key(key@) is None,
        },
{
    if key.len() != 65 {
        return Err(CoreError::Signature("invalid pubkey"));
    }
    let body = vstd::slice::slice_subrange(key, 1, 65);
    proof {
        assert(body@ =~= key@.skip(1));
    }
    let hash = keccak256(body);
    let tail = vstd::slice::slice_subrange(hash.as_slice(), 12, 32);
    Ok(array20(tail))
}

/// Recovers the address that signed `hash` with `sig`.
///
/// Fails with `Signature` when `v` is none of 0, 1, 27 and 28, when the
/// scalars form no signature, when no key can be recovered, and when the
/// recovered key is not 65 bytes long.
pub fn recover_address(hash: &[u8; 32], sig: &MessageSignature) -> (r: Result<[u8; 20], CoreError>)
    ensures
        match r {
            Ok(addr) => recover_address_spec(hash@, *sig) == Some(addr@),
            Err(e) => e is Signature && recover_address_spec(hash@, *sig) is None,
        },
{
    let v: u8 = if sig.v == 0 || sig.v == 1 {
        sig.v
    } else if sig.v == 27 || sig.v == 28 {
        sig.v - 27
    } else {
        return Err(CoreError::Signature("invalid v"));
    };
    match recover_key(hash, &sig.r, &sig.s, v) {
        Some(key) => address_from_key(key.as_slice()),
        None => Err(CoreError::Signature("recover failed")),
    }
}

/// Checks that `sig` is the signature of `expected_addr` on `message`.
/// Every failure is a `Signature` error.
pub fn verify_signature(
    domain_separator: &[u8; 32],
    message: &Message,
    sig: &MessageSignature,
    expected_addr: &[u8; 20],
) -> (r: Result<(), CoreError>)
    ensures
        r is Ok <==> signed_by(domain_separator@, *message, *sig, expected_addr@),
        r matches Err(e) ==> e is Signature,
{
    let hash = message_hash(domain_separator, message);
    let addr = recover_address(&hash, sig)?;
    if !same_bytes(addr.as_slice(), expected_addr.as_slice()) {
        return Err(CoreError::Signature("signer mismatch"));
    }
    Ok(())
}

/// The price of a tick: `tick_index · tick_size`, or `None` when the tick
/// is negative or the price needs more than 256 bits.
pub open spec fn price_of(tick_index: i32, tick_size: nat) -> Option<nat> {
    if tick_index < 0 || tick_index * tick_size >= two_256() {
        None
    } else {
        Some((tick_index * tick_size) as nat)
    }
}

/// The price of a tick. Fails with `Invalid` for a negative tick and with
/// `Math` when the price does not fit in 256 bits.
pub fn price_from_tick(tick_index: i32, tick_size: U256) -> (r: Result<U256, CoreError>)
    ensures
        match r {
            Ok(price) => price_of(tick_index, tick_size@) == Some(price@),
            Err(e) => price_of(tick_index, tick_size@) is None && (if tick_index < 0 {
                e is Invalid
            } else {
                e is Math
            }),
        },
{
    if tick_index < 0 {
        return Err(CoreError::Invalid("negative tick"));
    }
    let idx = U256::from_u64(tick_index as u64);
    proof {
        assert(tick_size@ * idx@ == tick_index * tick_size@) by (nonlinear_arith)
            requires
                idx@ == tick_index,
        ;
    }
    match tick_size.checked_mul(&idx) {
        Some(price) => Ok(price),
        None => Err(CoreError::Math("price overflow")),
    }
}

/// Succeeds exactly when `tick_size` is not zero and divides `price`.
pub fn check_tick_price_multiple(price: U256, tick_size: U256) -> (r: Result<(), CoreError>)
    ensures
        r is Ok <==> tick_size@ != 0 && price@ % tick_size@ == 0,
        r matches Err(e) ==> e is Invalid,
{
    match price.checked_rem(&tick_size) {
        None => Err(CoreError::Invalid("tick size zero")),
        Some(rest) => {
            if !rest.is_zero() {
                return Err(CoreError::Invalid("price not tick multiple"));
            }
            Ok(())
        },
    }
}

/// Succeeds exactly when `lot_size` is not zero and divides `qty`.
pub fn check_lot_size(qty: U256, lot_size: U256) -> (r: Result<(), CoreError>)
    ensures
        r is Ok <==> lot_size@ != 0 && qty@ % lot_size@ == 0,
        r matches Err(e) ==> e is Invalid,
{
    match qty.checked_rem(&lot_size) {
        None => Err(CoreError::Invalid("lot size zero")),
        Some(rest) => {
            if !rest.is_zero() {
                return Err(CoreError::Invalid("qty not lot multiple"));
            }
            Ok(())
        },
    }
}

} // verus!
