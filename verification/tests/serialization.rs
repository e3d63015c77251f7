use clob_core::encoding::{Reader, Writer};
use clob_core::errors::CoreError;
use clob_core::hash::keccak256;
use clob_core::input::{Message, MessageSignature, PublicInputs, PublicInputsPartial, Rules};
use clob_core::types::{
    Balance, FeeTotal, FeeVault, MarketBest, Order, OrderNode, OrderStatus, Side, TickNode,
    TimeInForce, TradeRecord, U256,
};
use clob_core::verify::{batch_digest, domain_separator, message_hash, rules_hash};

#[test]
fn rules_hash_stable() {
    let rules = Rules {
        base_asset_id: [1u8; 32],
        quote_asset_id: [2u8; 32],
        price_scale: U256::from(1_000_000_000_000_000_000u128),
        tick_size: U256::from(1_000_000_000_000_000_000u128),
        lot_size: U256::from(1u64),
        taker_fee_bps: 10,
        maker_fee_bps: 0,
        max_orders_per_batch: 128,
        max_matches_per_order: 64,
        max_balance: U256::from(1_000_000u64),
    };
    let h1 = rules_hash(&rules);
    let h2 = rules_hash(&rules);
    assert_eq!(h1, h2);
}

#[test]
fn batch_digest_changes_with_order() {
    let domain = domain_separator(1, &[3u8; 32], &[4u8; 32]);
    let msg1 = Message::Cancel {
        trader: [9u8; 20],
        nonce: 1,
        order_id: [7u8; 32],
    };
    let msg2 = Message::Cancel {
        trader: [8u8; 20],
        nonce: 2,
        order_id: [6u8; 32],
    };
    let h1 = message_hash(&domain, &msg1);
    let h2 = message_hash(&domain, &msg2);
    let a = batch_digest(&domain, 1, &[h1, h2]);
    let b = batch_digest(&domain, 1, &[h2, h1]);
    assert_ne!(a, b);
}

#[test]
fn message_hash_distinct() {
    let domain = domain_separator(1, &[3u8; 32], &[4u8; 32]);
    let msg1 = Message::Place {
        trader: [9u8; 20],
        nonce: 1,
        order_id: [7u8; 32],
        side: Side::Buy,
        tif: TimeInForce::Gtc,
        tick_index: 1,
        qty_base: U256::from(1u64),
        prev_tick_hint: 0,
        next_tick_hint: 0,
    };
    let msg2 = Message::Place {
        trader: [9u8; 20],
        nonce: 1,
        order_id: [7u8; 32],
        side: Side::Sell,
        tif: TimeInForce::Gtc,
        tick_index: 1,
        qty_base: U256::from(1u64),
        prev_tick_hint: 0,
        next_tick_hint: 0,
    };
    let h1 = message_hash(&domain, &msg1);
    let h2 = message_hash(&domain, &msg2);
    assert_ne!(h1, h2);
}

fn sample_rules() -> Rules {
    Rules {
        base_asset_id: [1u8; 32],
        quote_asset_id: [2u8; 32],
        price_scale: U256::from(1_000_000_000_000_000_000u128),
        tick_size: U256::from(5u64),
        lot_size: U256::from(3u64),
        taker_fee_bps: 10,
        maker_fee_bps: 0,
        max_orders_per_batch: 128,
        max_matches_per_order: 64,
        max_balance: U256 { hi: 7, lo: 9 },
    }
}

#[test]
fn rules_hash_changes_with_every_field() {
    let base = sample_rules();
    let h = rules_hash(&base);
    let mut r = base;
    r.base_asset_id[31] ^= 1;
    assert_ne!(rules_hash(&r), h);
    let mut r = base;
    r.quote_asset_id[0] ^= 1;
    assert_ne!(rules_hash(&r), h);
    let mut r = base;
    r.price_scale = U256::from(1u64);
    assert_ne!(rules_hash(&r), h);
    let mut r = base;
    r.tick_size = U256::from(6u64);
    assert_ne!(rules_hash(&r), h);
    let mut r = base;
    r.lot_size = U256::from(4u64);
    assert_ne!(rules_hash(&r), h);
    let mut r = base;
    r.taker_fee_bps = 11;
    assert_ne!(rules_hash(&r), h);
    let mut r = base;
    r.maker_fee_bps = 1;
    assert_ne!(rules_hash(&r), h);
    let mut r = base;
    r.max_orders_per_batch = 127;
    assert_ne!(rules_hash(&r), h);
    let mut r = base;
    r.max_matches_per_order = 65;
    assert_ne!(rules_hash(&r), h);
    let mut r = base;
    r.max_balance = U256 { hi: 7, lo: 10 };
    assert_ne!(rules_hash(&r), h);
}

#[test]
fn rules_roundtrip() {
    let rules = sample_rules();
    let bytes = rules.encode();
    assert_eq!(bytes.len(), 208);
    assert_eq!(&bytes[0..32], &[1u8; 32]);
    assert_eq!(&bytes[160..164], &[0, 0, 0, 10]);
    assert_eq!(rules_hash(&rules), keccak256(&bytes));
    let mut reader = Reader::new(&bytes);
    let back = Rules::decode(&mut reader).expect("decode");
    reader.expect_finished().expect("finished");
    assert_eq!(back.encode(), bytes);
    assert_eq!(back.max_balance, rules.max_balance);
    assert_eq!(back.taker_fee_bps, 10);
    let mut short = Reader::new(&bytes[..207]);
    assert!(matches!(Rules::decode(&mut short), Err(CoreError::Decode(_))));
}

#[test]
fn public_inputs_roundtrip() {
    let partial = PublicInputsPartial {
        prev_root: [1u8; 32],
        batch_digest: [2u8; 32],
        rules_hash: [3u8; 32],
        domain_separator: [4u8; 32],
        batch_seq: 0x0102030405060708,
        batch_timestamp: 99,
        da_commitment: [5u8; 32],
    };
    let bytes = partial.encode();
    assert_eq!(bytes.len(), 176);
    assert_eq!(&bytes[128..136], &[1, 2, 3, 4, 5, 6, 7, 8]);
    let mut reader = Reader::new(&bytes);
    let back = PublicInputsPartial::decode(&mut reader).expect("decode");
    reader.expect_finished().expect("finished");
    assert_eq!(back.encode(), bytes);
    assert_eq!(back.batch_seq, partial.batch_seq);

    let public = PublicInputs {
        prev_root: [1u8; 32],
        new_root: [6u8; 32],
        batch_digest: [2u8; 32],
        rules_hash: [3u8; 32],
        domain_separator: [4u8; 32],
        batch_seq: 7,
        batch_timestamp: 99,
        da_commitment: [5u8; 32],
        trades_root: [8u8; 32],
        fees_root: [9u8; 32],
    };
    let bytes = public.encode();
    assert_eq!(bytes.len(), 272);
    assert_eq!(&bytes[32..64], &[6u8; 32]);
    assert_eq!(&bytes[240..272], &[9u8; 32]);
    let mut reader = Reader::new(&bytes);
    let back = PublicInputs::decode(&mut reader).expect("decode");
    reader.expect_finished().expect("finished");
    assert_eq!(back.encode(), bytes);
    let mut short = Reader::new(&bytes[..271]);
    assert!(matches!(PublicInputs::decode(&mut short), Err(CoreError::Decode(_))));
}

#[test]
fn entities_roundtrip() {
    let balance = Balance { available: U256 { hi: 3, lo: 4 }, locked: U256::from(5u64) };
    assert_eq!(Balance::decode(&balance.encode()).expect("balance"), balance);
    assert_eq!(balance.encode()[63], 5);
    assert_eq!(Balance::empty().encode(), [0u8; 64]);

    let order = Order {
        owner: [9u8; 20],
        side: Side::Sell,
        tick: -3,
        qty_remaining: U256::from(77u64),
        tif: TimeInForce::Ioc,
        status: OrderStatus::Canceled,
    };
    let bytes = order.encode();
    assert_eq!(bytes.len(), 62);
    assert_eq!(bytes[20], 1);
    assert_eq!(&bytes[21..25], &[0xff, 0xff, 0xff, 0xfd]);
    assert_eq!(&bytes[57..61], &[0, 0, 0, 1]);
    assert_eq!(bytes[61], 3);
    assert_eq!(Order::decode(&bytes).expect("order"), order);

    let node = OrderNode { prev_order_id: [1u8; 32], next_order_id: [2u8; 32] };
    assert_eq!(OrderNode::decode(&node.encode()).expect("order node"), node);

    let tick = TickNode {
        prev_tick: i32::MIN,
        next_tick: 12,
        head_order_id: [3u8; 32],
        tail_order_id: [4u8; 32],
    };
    let bytes = tick.encode();
    assert_eq!(&bytes[0..4], &[0x80, 0, 0, 0]);
    assert_eq!(&bytes[4..8], &[0, 0, 0, 12]);
    assert_eq!(TickNode::decode(&bytes).expect("tick node"), tick);

    let best = MarketBest { best_bid: -1, best_ask: i32::MAX };
    assert_eq!(best.encode(), [0xff, 0xff, 0xff, 0xff, 0x7f, 0xff, 0xff, 0xff]);
    assert_eq!(MarketBest::decode(&best.encode()).expect("market best"), best);

    let vault = FeeVault { total: U256::from(11u64) };
    assert_eq!(FeeVault::decode(&vault.encode()).expect("vault"), vault);
}

#[test]
fn malformed_entities_are_decode_errors() {
    assert!(matches!(Balance::decode(&[0u8; 63]), Err(CoreError::Decode(_))));
    assert!(matches!(Balance::decode(&[0u8; 65]), Err(CoreError::Decode(_))));
    assert!(matches!(OrderNode::decode(&[0u8; 32]), Err(CoreError::Decode(_))));
    assert!(matches!(TickNode::decode(&[0u8; 71]), Err(CoreError::Decode(_))));
    assert!(matches!(MarketBest::decode(&[0u8; 9]), Err(CoreError::Decode(_))));
    assert!(matches!(FeeVault::decode(&[0u8; 31]), Err(CoreError::Decode(_))));

    let order = Order {
        owner: [9u8; 20],
        side: Side::Buy,
        tick: 1,
        qty_remaining: U256::from(1u64),
        tif: TimeInForce::Gtc,
        status: OrderStatus::Open,
    };
    let good = order.encode();
    assert!(matches!(Order::decode(&good[..61]), Err(CoreError::Decode(_))));
    let mut long = good.clone();
    long.push(0);
    assert!(matches!(Order::decode(&long), Err(CoreError::Decode(_))));
    let mut bad_side = good.clone();
    bad_side[20] = 2;
    assert!(matches!(Order::decode(&bad_side), Err(CoreError::Decode(_))));
    let mut bad_tif = good.clone();
    bad_tif[60] = 2;
    assert!(matches!(Order::decode(&bad_tif), Err(CoreError::Decode(_))));
    let mut bad_status = good.clone();
    bad_status[61] = 0;
    assert!(matches!(Order::decode(&bad_status), Err(CoreError::Decode(_))));
    bad_status[61] = 4;
    assert!(matches!(Order::decode(&bad_status), Err(CoreError::Decode(_))));
}

#[test]
fn enum_codes() {
    assert_eq!(Side::from_u8(0).expect("buy"), Side::Buy);
    assert_eq!(Side::from_u8(1).expect("sell"), Side::Sell);
    assert!(matches!(Side::from_u8(2), Err(CoreError::Decode(_))));
    assert_eq!(Side::Buy.as_u8(), 0);
    assert_eq!(Side::Sell.as_u8(), 1);
    assert_eq!(Side::Buy.opposite(), Side::Sell);
    assert_eq!(Side::Sell.opposite(), Side::Buy);
    assert_eq!(TimeInForce::from_u32(0).expect("gtc"), TimeInForce::Gtc);
    assert_eq!(TimeInForce::from_u32(1).expect("ioc"), TimeInForce::Ioc);
    assert!(matches!(TimeInForce::from_u32(2), Err(CoreError::Decode(_))));
    assert_eq!(TimeInForce::Ioc.as_u32(), 1);
    assert_eq!(OrderStatus::from_u8(1).expect("open"), OrderStatus::Open);
    assert_eq!(OrderStatus::from_u8(2).expect("filled"), OrderStatus::Filled);
    assert_eq!(OrderStatus::from_u8(3).expect("canceled"), OrderStatus::Canceled);
    assert!(matches!(OrderStatus::from_u8(0), Err(CoreError::Decode(_))));
    assert!(matches!(OrderStatus::from_u8(4), Err(CoreError::Decode(_))));
    assert_eq!(OrderStatus::Canceled.as_u8(), 3);
}

#[test]
fn signed_bytes_leave_out_the_hints() {
    let place = |prev: i32, next: i32| Message::Place {
        trader: [9u8; 20],
        nonce: 0x0102,
        order_id: [7u8; 32],
        side: Side::Sell,
        tif: TimeInForce::Ioc,
        tick_index: 5,
        qty_base: U256::from(258u64),
        prev_tick_hint: prev,
        next_tick_hint: next,
    };
    let bytes = place(1, 2).encode_signed();
    assert_eq!(bytes.len(), 102);
    assert_eq!(bytes[0], 1);
    assert_eq!(&bytes[1..21], &[9u8; 20]);
    assert_eq!(&bytes[21..29], &[0, 0, 0, 0, 0, 0, 1, 2]);
    assert_eq!(&bytes[29..61], &[7u8; 32]);
    assert_eq!(bytes[61], 1);
    assert_eq!(&bytes[62..66], &[0, 0, 0, 1]);
    assert_eq!(&bytes[66..70], &[0, 0, 0, 5]);
    assert_eq!(&bytes[100..102], &[1, 2]);
    assert_eq!(place(3, 4).encode_signed(), bytes);
    assert_eq!(place(1, 2).type_id(), 1);

    let cancel = Message::Cancel { trader: [9u8; 20], nonce: 1, order_id: [7u8; 32] };
    let bytes = cancel.encode_signed();
    assert_eq!(bytes.len(), 61);
    assert_eq!(bytes[0], 2);
    assert_eq!(cancel.type_id(), 2);
    assert_eq!(cancel.trader(), [9u8; 20]);
    assert_eq!(cancel.nonce(), 1);
}

#[test]
fn hashes_follow_their_preimages() {
    let venue = [3u8; 32];
    let market = [4u8; 32];
    let domain = domain_separator(258, &venue, &market);
    let mut pre = b"NUMO_SPOT_CLOB_V1".to_vec();
    pre.extend_from_slice(&[0, 0, 0, 0, 0, 0, 1, 2]);
    pre.extend_from_slice(&venue);
    pre.extend_from_slice(&market);
    assert_eq!(domain, keccak256(&pre));

    let msg = Message::Cancel { trader: [9u8; 20], nonce: 1, order_id: [7u8; 32] };
    let mut pre = vec![0x19u8, 0x01];
    pre.extend_from_slice(&domain);
    pre.extend_from_slice(&keccak256(&msg.encode_signed()));
    let hash = message_hash(&domain, &msg);
    assert_eq!(hash, keccak256(&pre));

    let mut pre = b"BATCH_V1".to_vec();
    pre.extend_from_slice(&domain);
    pre.extend_from_slice(&[0, 0, 0, 0, 0, 0, 0, 5]);
    let mut joined = Vec::new();
    joined.extend_from_slice(&hash);
    joined.extend_from_slice(&hash);
    pre.extend_from_slice(&keccak256(&joined));
    assert_eq!(batch_digest(&domain, 5, &[hash, hash]), keccak256(&pre));

    let mut pre = b"BATCH_V1".to_vec();
    pre.extend_from_slice(&domain);
    pre.extend_from_slice(&[0u8; 8]);
    pre.extend_from_slice(&keccak256(&[]));
    assert_eq!(batch_digest(&domain, 0, &[]), keccak256(&pre));
}

#[test]
fn signature_and_records_encode_in_field_order() {
    let sig = MessageSignature { r: [1u8; 32], s: [2u8; 32], v: 27 };
    let bytes = sig.encode();
    assert_eq!(&bytes[..32], &[1u8; 32]);
    assert_eq!(&bytes[32..64], &[2u8; 32]);
    assert_eq!(bytes[64], 27);

    let trade = TradeRecord {
        market_id: [1u8; 32],
        maker_order_id: [2u8; 32],
        taker_order_id: [3u8; 32],
        maker: [4u8; 20],
        taker: [5u8; 20],
        side_taker: Side::Sell,
        maker_tick: 6,
        qty_base: U256::from(7u64),
        quote_amt: U256::from(8u64),
        taker_fee_quote: U256::from(9u64),
    };
    let bytes = trade.encode();
    assert_eq!(bytes.len(), 237);
    assert_eq!(&bytes[96..116], &[4u8; 20]);
    assert_eq!(&bytes[116..136], &[5u8; 20]);
    assert_eq!(bytes[136], 1);
    assert_eq!(&bytes[137..141], &[0, 0, 0, 6]);
    assert_eq!(bytes[172], 7);
    assert_eq!(bytes[204], 8);
    assert_eq!(bytes[236], 9);

    let fee = FeeTotal { asset_id: [2u8; 32], total_fee: U256::from(3u64) };
    let bytes = fee.encode();
    assert_eq!(bytes.len(), 64);
    assert_eq!(&bytes[..32], &[2u8; 32]);
    assert_eq!(bytes[63], 3);
}

#[test]
fn reader_and_writer_agree() {
    let mut w = Writer::new();
    w.write_u8(0xab);
    w.write_u32(0x01020304);
    w.write_u64(0x05060708090a0b0c);
    w.write_i32(-2);
    w.write_b32(&[7u8; 32]);
    w.write_addr(&[8u8; 20]);
    w.write_u256(&U256 { hi: 1, lo: 2 });
    w.write_bytes(b"xyz");
    w.write_raw(&[9, 9]);
    let bytes = w.into_bytes();
    assert_eq!(&bytes[..5], &[0xab, 1, 2, 3, 4]);
    assert_eq!(&bytes[13..17], &[0xff, 0xff, 0xff, 0xfe]);

    let mut r = Reader::new(&bytes);
    assert_eq!(r.remaining(), bytes.len());
    assert_eq!(r.read_u8().expect("u8"), 0xab);
    assert_eq!(r.read_u32().expect("u32"), 0x01020304);
    assert_eq!(r.read_u64().expect("u64"), 0x05060708090a0b0c);
    assert_eq!(r.read_i32().expect("i32"), -2);
    assert_eq!(r.read_b32().expect("b32"), [7u8; 32]);
    assert_eq!(r.read_addr().expect("addr"), [8u8; 20]);
    assert_eq!(r.read_u256().expect("u256"), U256 { hi: 1, lo: 2 });
    assert_eq!(r.read_bytes().expect("bytes"), b"xyz".to_vec());
    assert!(matches!(r.expect_finished(), Err(CoreError::Decode(_))));
    assert_eq!(r.read_exact(2).expect("raw"), &[9, 9]);
    r.expect_finished().expect("finished");
    assert_eq!(r.remaining(), 0);
    assert!(matches!(r.read_u8(), Err(CoreError::Decode(_))));
    assert!(matches!(r.read_exact(usize::MAX), Err(CoreError::Decode(_))));
    assert_eq!(r.read_exact(0).expect("nothing"), &[] as &[u8]);
}

#[test]
fn reader_refuses_short_input() {
    let bytes = [0u8, 0, 0, 5, 1, 2];
    let mut r = Reader::new(&bytes);
    assert!(matches!(r.read_bytes(), Err(CoreError::Decode(_))));
    assert_eq!(r.remaining(), 2);
    let mut r = Reader::new(&bytes[..3]);
    assert!(matches!(r.read_u32(), Err(CoreError::Decode(_))));
    assert_eq!(r.remaining(), 3);
    assert!(matches!(r.read_u64(), Err(CoreError::Decode(_))));
    assert!(matches!(r.read_i32(), Err(CoreError::Decode(_))));
    assert!(matches!(r.read_b32(), Err(CoreError::Decode(_))));
    assert!(matches!(r.read_addr(), Err(CoreError::Decode(_))));
    assert!(matches!(r.read_u256(), Err(CoreError::Decode(_))));
}

#[test]
fn error_labels() {
    assert_eq!(CoreError::Decode("a").label(), "decode error");
    assert_eq!(CoreError::Invalid("a").label(), "invalid input");
    assert_eq!(CoreError::Math("a").label(), "math error");
    assert_eq!(CoreError::Signature("a").label(), "signature error");
    assert_eq!(CoreError::State("a").label(), "state error");
    assert_eq!(CoreError::State("missing proof").detail(), "missing proof");
}
