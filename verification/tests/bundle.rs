use clob_core::driver::{
    check_commitments, commit_outputs, declare_input, digest_of_messages, fees_root,
    record_batch, run_against, run_batch, run_encoded_batch, touched_digest, trades_root,
};
use clob_core::encoding::Reader;
use clob_core::engine::apply_batch;
use clob_core::errors::CoreError;
use clob_core::hash::keccak256;
use clob_core::input::{
    decode_message, decode_proof, encode_message, encode_proof, GuestBundle, GuestInput, Message,
    MessageSignature, PublicInputsPartial, Rules, SignedMessage,
};
use clob_core::encoding::Writer;
use clob_core::merkle::{node_hash, Proof, SparseMerkleTree};
use clob_core::state::{key_balance, ProofState, RecordingState};
use clob_core::types::{Balance, FeeTotal, Side, TimeInForce, TradeRecord, U256};
use clob_core::verify::{batch_digest, domain_separator, message_hash, rules_hash};

use k256::ecdsa::SigningKey;

const BASE: [u8; 32] = [1u8; 32];
const QUOTE: [u8; 32] = [2u8; 32];
const MARKET: [u8; 32] = [3u8; 32];
const VENUE: [u8; 32] = [9u8; 32];
const NONE: i32 = i32::MIN;

fn rules() -> Rules {
    Rules {
        base_asset_id: BASE,
        quote_asset_id: QUOTE,
        price_scale: U256::from(1_000_000_000_000_000_000u128),
        tick_size: U256::from(1_000_000_000_000_000_000u128),
        lot_size: U256::from(1u64),
        taker_fee_bps: 25,
        maker_fee_bps: 0,
        max_orders_per_batch: 128,
        max_matches_per_order: 64,
        max_balance: U256::from(1_000_000u64),
    }
}

fn address(key: &SigningKey) -> [u8; 20] {
    let pubkey = key.verifying_key().to_encoded_point(false);
    let hash = keccak256(&pubkey.as_bytes()[1..]);
    hash[12..].try_into().unwrap()
}

fn sign(key: &SigningKey, message: Message) -> SignedMessage {
    let domain = domain_separator(1, &VENUE, &MARKET);
    let hash = message_hash(&domain, &message);
    let (sig, recid) = key.sign_prehash_recoverable(&hash).expect("sign");
    let bytes = sig.to_bytes();
    SignedMessage {
        message,
        signature: MessageSignature {
            r: bytes[..32].try_into().unwrap(),
            s: bytes[32..].try_into().unwrap(),
            v: recid.to_byte() + 27,
        },
    }
}

fn messages() -> (Vec<SignedMessage>, [u8; 20], [u8; 20]) {
    let maker = SigningKey::from_slice(&[0x11u8; 32]).unwrap();
    let taker = SigningKey::from_slice(&[0x22u8; 32]).unwrap();
    let ask = sign(
        &maker,
        Message::Place {
            trader: address(&maker),
            nonce: 1,
            order_id: keccak256(b"ask"),
            side: Side::Sell,
            tif: TimeInForce::Gtc,
            tick_index: 4,
            qty_base: U256::from(10u64),
            prev_tick_hint: NONE,
            next_tick_hint: NONE,
        },
    );
    let buy = sign(
        &taker,
        Message::Place {
            trader: address(&taker),
            nonce: 1,
            order_id: keccak256(b"buy"),
            side: Side::Buy,
            tif: TimeInForce::Ioc,
            tick_index: 5,
            qty_base: U256::from(3u64),
            prev_tick_hint: NONE,
            next_tick_hint: NONE,
        },
    );
    let cancel = sign(
        &maker,
        Message::Cancel { trader: address(&maker), nonce: 2, order_id: keccak256(b"ask") },
    );
    (vec![ask, buy, cancel], address(&maker), address(&taker))
}

/// Records a batch on a fresh tree and packs what the prover needs.
fn recorded_bundle() -> (GuestBundle, RecordingState, Vec<TradeRecord>, Vec<FeeTotal>) {
    let (batch, maker, taker) = messages();
    let mut tree = SparseMerkleTree::new();
    let fund = |tree: &mut SparseMerkleTree, who: &[u8; 20], asset: &[u8; 32], amount: u64| {
        let b = Balance { available: U256::from(amount), locked: U256::zero() };
        tree.update(key_balance(who, asset), Some(b.encode().to_vec()));
    };
    fund(&mut tree, &maker, &BASE, 10);
    fund(&mut tree, &taker, &QUOTE, 100);
    let prev_root = tree.root();
    let domain = domain_separator(1, &VENUE, &MARKET);
    let mut state = RecordingState::new(tree);
    let output = apply_batch(&mut state, MARKET, &rules(), domain, &batch).expect("recorded");
    let hashes: Vec<[u8; 32]> = batch.iter().map(|m| message_hash(&domain, &m.message)).collect();
    let input = GuestInput {
        public: PublicInputsPartial {
            prev_root,
            batch_digest: batch_digest(&domain, 7, &hashes),
            rules_hash: rules_hash(&rules()),
            domain_separator: domain,
            batch_seq: 7,
            batch_timestamp: 1_700_000_000,
            da_commitment: [5u8; 32],
        },
        chain_id: 1,
        venue_id: VENUE,
        market_id: MARKET,
        rules: rules(),
        messages: batch,
    };
    let bundle = GuestBundle { input, proofs: state.proofs.clone() };
    (bundle, state, output.trades, output.fee_totals)
}

#[test]
fn bundle_roundtrip() {
    let (bundle, _, _, _) = recorded_bundle();
    let bytes = bundle.encode();
    let mut reader = Reader::new(&bytes);
    let back = GuestBundle::decode(&mut reader).expect("decode");
    reader.expect_finished().expect("finished");
    assert_eq!(back.encode(), bytes);
    assert_eq!(back.input.messages.len(), 3);
    assert_eq!(back.proofs.len(), bundle.proofs.len());
    assert_eq!(back.input.chain_id, 1);
    assert_eq!(back.input.public.batch_seq, 7);
    assert_eq!(back.input.encode(), bundle.input.encode());
    for (a, b) in back.proofs.iter().zip(bundle.proofs.iter()) {
        assert_eq!(a.key, b.key);
        assert_eq!(a.present, b.present);
        assert_eq!(a.value, b.value);
        assert_eq!(a.siblings, b.siblings);
    }
    assert!(back.proofs.iter().any(|p| p.present));
    assert!(back.proofs.iter().any(|p| !p.present));
    // the input alone
    let input_bytes = bundle.input.encode();
    assert_eq!(&bytes[..input_bytes.len()], &input_bytes[..]);
    assert_eq!(input_bytes.len(), 460 + 175 + 175 + 126);
    assert_eq!(&input_bytes[456..460], &[0, 0, 0, 3]);
    let mut reader = Reader::new(&input_bytes);
    let input = GuestInput::decode(&mut reader).expect("input");
    reader.expect_finished().expect("finished");
    assert_eq!(input.encode(), input_bytes);
}

#[test]
fn message_wire_format() {
    let (batch, maker, _) = messages();
    let mut w = Writer::new();
    encode_message(&mut w, &batch[0]);
    let place = w.into_bytes();
    assert_eq!(place.len(), 175);
    assert_eq!(&place[..102], &batch[0].message.encode_signed()[..]);
    assert_eq!(&place[102..167], &batch[0].signature.encode()[..]);
    assert_eq!(&place[167..175], &[0x80, 0, 0, 0, 0x80, 0, 0, 0]);
    let mut reader = Reader::new(&place);
    let back = decode_message(&mut reader).expect("place");
    assert_eq!(reader.remaining(), 0);
    assert_eq!(back.message.trader(), maker);
    assert_eq!(back.message.encode_signed(), batch[0].message.encode_signed());

    let mut w = Writer::new();
    encode_message(&mut w, &batch[2]);
    let cancel = w.into_bytes();
    assert_eq!(cancel.len(), 126);
    assert_eq!(cancel[0], 2);
    let mut reader = Reader::new(&cancel);
    let back = decode_message(&mut reader).expect("cancel");
    assert_eq!(back.message.nonce(), 2);
    assert_eq!(back.signature.encode(), batch[2].signature.encode());

    let refuse = |bytes: &[u8]| {
        let mut reader = Reader::new(bytes);
        matches!(decode_message(&mut reader), Err(CoreError::Decode(_)))
    };
    assert!(refuse(&[]));
    assert!(refuse(&place[..174]));
    assert!(refuse(&cancel[..125]));
    let mut unknown = place.clone();
    unknown[0] = 3;
    assert!(refuse(&unknown));
    unknown[0] = 0;
    assert!(refuse(&unknown));
    let mut bad_side = place.clone();
    bad_side[61] = 2;
    assert!(refuse(&bad_side));
    let mut bad_tif = place.clone();
    bad_tif[65] = 2;
    assert!(refuse(&bad_tif));
}

#[test]
fn proof_wire_format() {
    let siblings: Vec<[u8; 32]> = (0..256).map(|i| [i as u8; 32]).collect();
    let proof = Proof::new([7u8; 32], b"abc".to_vec(), true, siblings);
    let mut w = Writer::new();
    encode_proof(&mut w, &proof);
    let bytes = w.into_bytes();
    assert_eq!(bytes.len(), 32 + 1 + 4 + 3 + 8192);
    assert_eq!(&bytes[..32], &[7u8; 32]);
    assert_eq!(bytes[32], 1);
    assert_eq!(&bytes[33..40], &[0, 0, 0, 3, b'a', b'b', b'c']);
    assert_eq!(&bytes[40..72], &[0u8; 32]);
    assert_eq!(&bytes[bytes.len() - 32..], &[255u8; 32]);
    let mut reader = Reader::new(&bytes);
    let back = decode_proof(&mut reader).expect("proof");
    assert_eq!(reader.remaining(), 0);
    assert_eq!(back.key, proof.key);
    assert_eq!(back.value, proof.value);
    assert_eq!(back.present, proof.present);
    assert_eq!(back.siblings, proof.siblings);

    let refuse = |bytes: &[u8]| {
        let mut reader = Reader::new(bytes);
        matches!(decode_proof(&mut reader), Err(CoreError::Decode(_)))
    };
    assert!(refuse(&bytes[..bytes.len() - 1]));
    assert!(refuse(&bytes[..36]));
    let mut flag = bytes.clone();
    flag[32] = 2;
    assert!(refuse(&flag));
    let mut long = bytes.clone();
    long[36] = 4;
    assert!(refuse(&long));
    flag[32] = 0;
    let mut reader = Reader::new(&flag);
    assert!(!decode_proof(&mut reader).expect("absent flag").present);
}

#[test]
fn malformed_bundles_are_decode_errors() {
    let (bundle, _, _, _) = recorded_bundle();
    let bytes = bundle.encode();
    let refuse = |bytes: &[u8]| {
        let mut reader = Reader::new(bytes);
        matches!(GuestBundle::decode(&mut reader), Err(CoreError::Decode(_)))
    };
    assert!(refuse(&bytes[..bytes.len() - 1]));
    assert!(refuse(&bytes[..459]));
    assert!(refuse(&[]));
    let mut more_messages = bytes.clone();
    more_messages[459] = 4;
    assert!(refuse(&more_messages));
    let mut unknown_tag = bytes.clone();
    unknown_tag[460] = 9;
    assert!(refuse(&unknown_tag));
    let mut trailing = bytes.clone();
    trailing.push(0);
    assert!(matches!(run_encoded_batch(&trailing), Err(CoreError::Decode(_))));
    assert!(matches!(run_encoded_batch(&bytes[..100]), Err(CoreError::Decode(_))));
}

#[test]
fn batch_runs_from_its_encoding() {
    let (bundle, recorded, trades, totals) = recorded_bundle();
    assert_eq!(trades.len(), 1);
    assert_eq!(trades[0].quote_amt, U256::from(12u64));
    assert_eq!(trades[0].taker_fee_quote, U256::from(1u64));
    assert_eq!(totals.len(), 1);
    let bytes = bundle.encode();
    let (public, digest) = run_encoded_batch(&bytes).expect("run");
    assert_eq!(public.len(), 272);
    assert_eq!(&public[0..32], &bundle.input.public.prev_root[..]);
    assert_eq!(&public[32..64], &recorded.root[..]);
    assert_eq!(&public[64..96], &bundle.input.public.batch_digest[..]);
    assert_eq!(&public[96..128], &bundle.input.public.rules_hash[..]);
    assert_eq!(&public[128..160], &bundle.input.public.domain_separator[..]);
    assert_eq!(&public[160..168], &7u64.to_be_bytes()[..]);
    assert_eq!(&public[168..176], &1_700_000_000u64.to_be_bytes()[..]);
    assert_eq!(&public[176..208], &[5u8; 32]);
    // one trade and one fee total: each root is the hash of the one record
    assert_eq!(&public[208..240], &keccak256(&trades[0].encode())[..]);
    assert_eq!(&public[240..272], &keccak256(&totals[0].encode())[..]);
    let mut touched = Vec::new();
    for proof in &recorded.proofs {
        touched.extend_from_slice(&proof.key);
    }
    assert_eq!(digest, keccak256(&touched));

    let commitment = run_batch(&bundle.input, bundle.proofs.clone()).expect("run");
    assert_eq!(commitment.public.encode(), public);
    assert_eq!(commitment.touched_digest, digest);
    assert_eq!(commitment.public.new_root, recorded.tree.root());
}

#[test]
fn output_roots_follow_the_records() {
    let (_, _, trades, totals) = recorded_bundle();
    assert_eq!(trades_root(&Vec::new()), [0u8; 32]);
    assert_eq!(fees_root(&Vec::new()), [0u8; 32]);
    let leaf = keccak256(&trades[0].encode());
    assert_eq!(trades_root(&trades), leaf);
    let twice = vec![trades[0], trades[0]];
    assert_eq!(trades_root(&twice), node_hash(&leaf, &leaf));
    assert_eq!(fees_root(&totals), keccak256(&totals[0].encode()));
    assert_eq!(touched_digest(&Vec::new()), keccak256(&[]));
    assert_eq!(touched_digest(&vec![[1u8; 32], [2u8; 32]]), keccak256(&[[1u8; 32], [2u8; 32]].concat()));
}

#[test]
fn declared_commitments_must_match() {
    let (bundle, recorded, trades, totals) = recorded_bundle();
    assert_eq!(check_commitments(&bundle.input).expect("match"), bundle.input.public.domain_separator);

    let mut wrong = bundle.input.clone();
    wrong.public.domain_separator[0] ^= 1;
    assert!(matches!(check_commitments(&wrong), Err(CoreError::State(_))));
    assert!(matches!(run_batch(&wrong, bundle.proofs.clone()), Err(CoreError::State(_))));
    let mut wrong = bundle.input.clone();
    wrong.chain_id = 2;
    assert!(matches!(check_commitments(&wrong), Err(CoreError::State(_))));
    let mut wrong = bundle.input.clone();
    wrong.public.rules_hash[0] ^= 1;
    assert!(matches!(check_commitments(&wrong), Err(CoreError::State(_))));
    let mut wrong = bundle.input.clone();
    wrong.rules.taker_fee_bps += 1;
    assert!(matches!(check_commitments(&wrong), Err(CoreError::State(_))));
    let mut wrong = bundle.input.clone();
    wrong.public.batch_digest[0] ^= 1;
    assert!(matches!(check_commitments(&wrong), Err(CoreError::State(_))));
    let mut wrong = bundle.input.clone();
    wrong.public.batch_seq = 8;
    assert!(matches!(check_commitments(&wrong), Err(CoreError::State(_))));
    let mut wrong = bundle.input.clone();
    wrong.messages.swap(0, 1);
    assert!(matches!(check_commitments(&wrong), Err(CoreError::State(_))));

    // a proof too many, a proof too few, another previous root
    let mut extra = bundle.proofs.clone();
    extra.push(bundle.proofs[0].clone());
    assert!(matches!(run_batch(&bundle.input, extra), Err(CoreError::State(_))));
    let mut short = bundle.proofs.clone();
    short.pop();
    assert!(matches!(run_batch(&bundle.input, short), Err(CoreError::State(_))));
    let mut wrong = bundle.input.clone();
    wrong.public.prev_root[0] ^= 1;
    assert!(matches!(run_batch(&wrong, bundle.proofs.clone()), Err(CoreError::State(_))));

    let output = clob_core::engine::BatchOutput { trades, fee_totals: totals };
    let keys: Vec<[u8; 32]> = recorded.proofs.iter().map(|p| p.key).collect();
    let c = commit_outputs(&bundle.input, recorded.root, &output, &keys);
    assert_eq!(c.public.new_root, recorded.root);
    assert_eq!(c.public.da_commitment, [5u8; 32]);
    assert_eq!(c.touched_digest, touched_digest(&keys));
}

#[test]
fn run_against_a_state_leaves_it_at_the_new_root() {
    let (bundle, recorded, _, _) = recorded_bundle();
    let mut state = ProofState::new(bundle.input.public.prev_root, bundle.proofs.clone());
    let commitment = run_against(&bundle.input, &mut state).expect("run");
    assert_eq!(state.remaining_proofs(), 0);
    assert_eq!(state.root, recorded.root);
    assert_eq!(commitment.public.new_root, recorded.root);
    assert_eq!(state.touched_keys.len(), bundle.proofs.len());
    assert_eq!(commitment.touched_digest, touched_digest(&state.touched_keys));

    // a proof left over fails the run after the batch has been applied
    let mut extra = bundle.proofs.clone();
    extra.push(bundle.proofs[0].clone());
    let mut state = ProofState::new(bundle.input.public.prev_root, extra);
    assert!(matches!(run_against(&bundle.input, &mut state), Err(CoreError::State(_))));
    assert_eq!(state.remaining_proofs(), 1);
    assert_eq!(state.root, recorded.root);

    // a declared commitment that does not match leaves the state untouched
    let mut wrong = bundle.input.clone();
    wrong.public.batch_seq = 8;
    let mut state = ProofState::new(bundle.input.public.prev_root, bundle.proofs.clone());
    assert!(matches!(run_against(&wrong, &mut state), Err(CoreError::State(_))));
    assert_eq!(state.remaining_proofs(), bundle.proofs.len());
    assert_eq!(state.root, bundle.input.public.prev_root);
    assert!(state.touched_keys.is_empty());
}

/// The tree that `recorded_bundle` starts from.
fn funded_tree(maker: &[u8; 20], taker: &[u8; 20]) -> SparseMerkleTree {
    let mut tree = SparseMerkleTree::new();
    let maker_funds = Balance { available: U256::from(10u64), locked: U256::zero() };
    let taker_funds = Balance { available: U256::from(100u64), locked: U256::zero() };
    tree.update(key_balance(maker, &BASE), Some(maker_funds.encode().to_vec()));
    tree.update(key_balance(taker, &QUOTE), Some(taker_funds.encode().to_vec()));
    tree
}

#[test]
fn recording_a_batch_gives_what_the_prover_needs() {
    let (bundle, recorded, trades, totals) = recorded_bundle();
    let (batch, maker, taker) = messages();
    let domain = domain_separator(1, &VENUE, &MARKET);
    let recording =
        record_batch(funded_tree(&maker, &taker), MARKET, &rules(), domain, &batch).expect("record");
    assert_eq!(recording.new_root, recorded.root);
    assert_eq!(recording.output.trades, trades);
    assert_eq!(recording.output.fee_totals, totals);
    assert_eq!(recording.proofs.len(), bundle.proofs.len());
    for (mine, theirs) in recording.proofs.iter().zip(bundle.proofs.iter()) {
        assert_eq!(mine.key, theirs.key);
        assert_eq!(mine.value, theirs.value);
        assert_eq!(mine.present, theirs.present);
        assert_eq!(mine.siblings, theirs.siblings);
    }
    let commitment = run_batch(&bundle.input, recording.proofs).expect("run");
    assert_eq!(commitment.public.new_root, recording.new_root);

    // a batch that the book refuses is refused here too
    let mut twice = batch.clone();
    twice.push(batch[1].clone());
    let refused = record_batch(funded_tree(&maker, &taker), MARKET, &rules(), domain, &twice);
    assert!(matches!(refused, Err(CoreError::Invalid(_))));
}

#[test]
fn declared_input_matches_its_commitments() {
    let (bundle, _, _, _) = recorded_bundle();
    let given = &bundle.input;
    let input = declare_input(
        given.public.prev_root,
        1,
        VENUE,
        MARKET,
        rules(),
        given.messages.clone(),
        7,
        1_700_000_000,
        [5u8; 32],
    );
    assert_eq!(input.encode(), given.encode());
    assert_eq!(check_commitments(&input).expect("match"), given.public.domain_separator);
    let domain = domain_separator(1, &VENUE, &MARKET);
    assert_eq!(digest_of_messages(&domain, 7, &given.messages), given.public.batch_digest);
    assert_ne!(digest_of_messages(&domain, 8, &given.messages), given.public.batch_digest);
    let none = digest_of_messages(&domain, 7, &[]);
    assert_eq!(none, batch_digest(&domain, 7, &[]));
}
