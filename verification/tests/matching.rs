use clob_core::engine::{apply_batch, check_rules, BatchOutput};
use clob_core::errors::CoreError;
use clob_core::hash::keccak256;
use clob_core::input::{Message, MessageSignature, Rules, SignedMessage};
use clob_core::merkle::SparseMerkleTree;
use clob_core::state::{
    key_balance, key_fee_vault, key_market_best, key_nonce, key_order, key_order_node,
    key_tick_node, ProofState, RecordingState,
};
use clob_core::types::{
    Balance, FeeVault, MarketBest, Order, OrderNode, OrderStatus, Side, TickNode, TimeInForce,
    U256,
};
use clob_core::verify::{domain_separator, message_hash};

use k256::ecdsa::SigningKey;

#[test]
fn single_fill_ioc_buy() {
    let base = [1u8; 32];
    let quote = [2u8; 32];
    let market = [3u8; 32];
    let rules = Rules {
        base_asset_id: base,
        quote_asset_id: quote,
        price_scale: U256::from(1_000_000_000_000_000_000u128),
        tick_size: U256::from(1_000_000_000_000_000_000u128),
        lot_size: U256::from(1u64),
        taker_fee_bps: 0,
        maker_fee_bps: 0,
        max_orders_per_batch: 128,
        max_matches_per_order: 64,
        max_balance: U256::from(1_000_000u64),
    };

    let maker_key = SigningKey::from_slice(&[0x11u8; 32]).unwrap();
    let taker_key = SigningKey::from_slice(&[0x22u8; 32]).unwrap();
    let maker = addr_from_key(&maker_key);
    let taker = addr_from_key(&taker_key);

    let mut tree = SparseMerkleTree::new();
    let maker_balance = Balance {
        available: U256::zero(),
        locked: U256::from(10u64),
    };
    tree.update(key_balance(&maker, &base), Some(maker_balance.encode().to_vec()));
    tree.update(
        key_balance(&maker, &quote),
        Some(
            Balance {
                available: U256::zero(),
                locked: U256::zero(),
            }
            .encode()
            .to_vec(),
        ),
    );
    tree.update(
        key_balance(&taker, &quote),
        Some(
            Balance {
                available: U256::from(10u64),
                locked: U256::zero(),
            }
            .encode()
            .to_vec(),
        ),
    );
    tree.update(key_nonce(&taker), Some(0u64.to_be_bytes().to_vec()));

    let maker_order_id = keccak256(b"maker-order");
    let maker_order = Order {
        owner: maker,
        side: Side::Sell,
        tick: 1,
        qty_remaining: U256::from(10u64),
        tif: TimeInForce::Gtc,
        status: OrderStatus::Open,
    };
    tree.update(key_order(&maker_order_id), Some(maker_order.encode()));
    tree.update(
        key_order_node(&maker_order_id),
        Some(
            OrderNode {
                prev_order_id: [0u8; 32],
                next_order_id: [0u8; 32],
            }
            .encode()
            .to_vec(),
        ),
    );
    tree.update(
        key_tick_node(&market, Side::Sell.as_u8(), 1),
        Some(
            TickNode {
                prev_tick: i32::MIN,
                next_tick: i32::MIN,
                head_order_id: maker_order_id,
                tail_order_id: maker_order_id,
            }
            .encode()
            .to_vec(),
        ),
    );
    tree.update(
        key_market_best(&market),
        Some(
            MarketBest {
                best_bid: i32::MIN,
                best_ask: 1,
            }
            .encode()
            .to_vec(),
        ),
    );

    let domain = domain_separator(1, &[9u8; 32], &market);
    let taker_order_id = keccak256(b"taker-order");
    let message = Message::Place {
        trader: taker,
        nonce: 1,
        order_id: taker_order_id,
        side: Side::Buy,
        tif: TimeInForce::Ioc,
        tick_index: 1,
        qty_base: U256::from(5u64),
        prev_tick_hint: i32::MIN,
        next_tick_hint: i32::MIN,
    };
    let hash = message_hash(&domain, &message);
    let signature = sign_hash(&taker_key, hash);
    let signed = SignedMessage { message, signature };

    let mut state = RecordingState::new(tree);
    apply_batch(&mut state, market, &rules, domain, &[signed]).expect("apply batch");

    let maker_balance_after = Balance::decode(
        state
            .tree
            .get(key_balance(&maker, &base))
            .as_ref()
            .unwrap(),
    )
    .unwrap();
    let maker_quote_after = Balance::decode(
        state
            .tree
            .get(key_balance(&maker, &quote))
            .as_ref()
            .unwrap(),
    )
    .unwrap();
    let taker_quote_after = Balance::decode(
        state
            .tree
            .get(key_balance(&taker, &quote))
            .as_ref()
            .unwrap(),
    )
    .unwrap();
    let taker_base_raw = state.tree.get(key_balance(&taker, &base));
    let taker_base_after = if let Some(bytes) = taker_base_raw {
        Balance::decode(&bytes).unwrap()
    } else {
        Balance::empty()
    };

    assert_eq!(maker_balance_after.locked, U256::from(5u64));
    assert_eq!(maker_quote_after.available, U256::from(5u64));
    assert_eq!(taker_quote_after.available, U256::from(5u64));
    assert_eq!(taker_base_after.available, U256::from(5u64));
}

fn addr_from_key(key: &SigningKey) -> [u8; 20] {
    let pubkey = key.verifying_key().to_encoded_point(false);
    let hash = keccak256(&pubkey.as_bytes()[1..]);
    hash[12..].try_into().unwrap()
}

fn sign_hash(key: &SigningKey, hash: [u8; 32]) -> MessageSignature {
    let (sig, recid) = key.sign_prehash_recoverable(&hash).expect("sign");
    let sig_bytes = sig.to_bytes();
    MessageSignature {
        r: sig_bytes[..32].try_into().unwrap(),
        s: sig_bytes[32..].try_into().unwrap(),
        v: recid.to_byte() + 27,
    }
}

const BASE: [u8; 32] = [1u8; 32];
const QUOTE: [u8; 32] = [2u8; 32];
const MARKET: [u8; 32] = [3u8; 32];
const NONE: i32 = i32::MIN;

fn rules(taker_fee_bps: u32) -> Rules {
    Rules {
        base_asset_id: BASE,
        quote_asset_id: QUOTE,
        price_scale: U256::from(1_000_000_000_000_000_000u128),
        tick_size: U256::from(1_000_000_000_000_000_000u128),
        lot_size: U256::from(1u64),
        taker_fee_bps,
        maker_fee_bps: 0,
        max_orders_per_batch: 128,
        max_matches_per_order: 64,
        max_balance: U256::from(1_000_000u64),
    }
}

fn domain() -> [u8; 32] {
    domain_separator(1, &[9u8; 32], &MARKET)
}

fn key_of(seed: u8) -> SigningKey {
    SigningKey::from_slice(&[seed; 32]).unwrap()
}

fn sign(key: &SigningKey, message: Message) -> SignedMessage {
    let hash = message_hash(&domain(), &message);
    SignedMessage { message, signature: sign_hash(key, hash) }
}

fn place(
    key: &SigningKey,
    nonce: u64,
    name: &[u8],
    side: Side,
    tif: TimeInForce,
    tick: i32,
    qty: u64,
    hints: (i32, i32),
) -> SignedMessage {
    sign(
        key,
        Message::Place {
            trader: addr_from_key(key),
            nonce,
            order_id: keccak256(name),
            side,
            tif,
            tick_index: tick,
            qty_base: U256::from(qty),
            prev_tick_hint: hints.0,
            next_tick_hint: hints.1,
        },
    )
}

fn cancel(key: &SigningKey, nonce: u64, name: &[u8]) -> SignedMessage {
    sign(
        key,
        Message::Cancel { trader: addr_from_key(key), nonce, order_id: keccak256(name) },
    )
}

fn fund(tree: &mut SparseMerkleTree, account: &[u8; 20], asset: &[u8; 32], available: u64, locked: u64) {
    let balance = Balance { available: U256::from(available), locked: U256::from(locked) };
    tree.update(key_balance(account, asset), Some(balance.encode().to_vec()));
}

fn balance(tree: &SparseMerkleTree, account: &[u8; 20], asset: &[u8; 32]) -> (u64, u64) {
    let b = match tree.get(key_balance(account, asset)) {
        Some(bytes) => Balance::decode(&bytes).unwrap(),
        None => Balance::empty(),
    };
    assert_eq!(b.available.hi, 0);
    assert_eq!(b.locked.hi, 0);
    (b.available.lo as u64, b.locked.lo as u64)
}

fn order(tree: &SparseMerkleTree, name: &[u8]) -> Option<Order> {
    tree.get(key_order(&keccak256(name))).map(|bytes| Order::decode(&bytes).unwrap())
}

fn order_node(tree: &SparseMerkleTree, name: &[u8]) -> OrderNode {
    match tree.get(key_order_node(&keccak256(name))) {
        Some(bytes) => OrderNode::decode(&bytes).unwrap(),
        None => OrderNode { prev_order_id: [0u8; 32], next_order_id: [0u8; 32] },
    }
}

fn tick_node(tree: &SparseMerkleTree, side: Side, tick: i32) -> TickNode {
    match tree.get(key_tick_node(&MARKET, side.as_u8(), tick)) {
        Some(bytes) => TickNode::decode(&bytes).unwrap(),
        None => TickNode {
            prev_tick: NONE,
            next_tick: NONE,
            head_order_id: [0u8; 32],
            tail_order_id: [0u8; 32],
        },
    }
}

fn best(tree: &SparseMerkleTree) -> MarketBest {
    match tree.get(key_market_best(&MARKET)) {
        Some(bytes) => MarketBest::decode(&bytes).unwrap(),
        None => MarketBest { best_bid: NONE, best_ask: NONE },
    }
}

fn nonce(tree: &SparseMerkleTree, account: &[u8; 20]) -> u64 {
    match tree.get(key_nonce(account)) {
        Some(bytes) => u64::from_be_bytes(bytes.try_into().unwrap()),
        None => 0,
    }
}

fn vault(tree: &SparseMerkleTree, asset: &[u8; 32]) -> U256 {
    match tree.get(key_fee_vault(asset)) {
        Some(bytes) => FeeVault::decode(&bytes).unwrap().total,
        None => U256::zero(),
    }
}

fn run(
    tree: SparseMerkleTree,
    rules: &Rules,
    messages: &[SignedMessage],
) -> (Result<BatchOutput, CoreError>, RecordingState) {
    let mut state = RecordingState::new(tree);
    let result = apply_batch(&mut state, MARKET, rules, domain(), messages);
    (result, state)
}

/// A book with the asks that `makers` placed, each as a resting order.
fn book_with_asks(makers: &[(&SigningKey, &[u8], i32, u64, (i32, i32))]) -> SparseMerkleTree {
    let mut tree = SparseMerkleTree::new();
    let mut batch = Vec::new();
    for (key, name, tick, qty, hints) in makers {
        let account = addr_from_key(key);
        let (available, locked) = balance(&tree, &account, &BASE);
        fund(&mut tree, &account, &BASE, available + qty, locked);
        let next = nonce_in(&batch, &account) + 1;
        batch.push(place(key, next, name, Side::Sell, TimeInForce::Gtc, *tick, *qty, *hints));
    }
    let (result, state) = run(tree, &rules(0), &batch);
    let output = result.expect("book set up");
    assert!(output.trades.is_empty());
    state.tree
}

fn nonce_in(batch: &[SignedMessage], account: &[u8; 20]) -> u64 {
    batch.iter().filter(|m| &m.message.trader() == account).count() as u64
}

#[test]
fn ioc_buy_fully_fills_against_one_ask() {
    let maker = key_of(0x11);
    let taker = key_of(0x22);
    let maker_addr = addr_from_key(&maker);
    let taker_addr = addr_from_key(&taker);
    let mut tree = book_with_asks(&[(&maker, b"maker", 1, 10, (NONE, NONE))]);
    fund(&mut tree, &taker_addr, &QUOTE, 10, 0);

    let msg = place(&taker, 1, b"taker", Side::Buy, TimeInForce::Ioc, 1, 5, (NONE, NONE));
    let (result, state) = run(tree, &rules(0), &[msg]);
    let output = result.expect("apply batch");

    assert_eq!(balance(&state.tree, &maker_addr, &BASE), (0, 5));
    assert_eq!(balance(&state.tree, &maker_addr, &QUOTE), (5, 0));
    assert_eq!(balance(&state.tree, &taker_addr, &BASE), (5, 0));
    assert_eq!(balance(&state.tree, &taker_addr, &QUOTE), (5, 0));

    assert_eq!(output.trades.len(), 1);
    let trade = &output.trades[0];
    assert_eq!(trade.market_id, MARKET);
    assert_eq!(trade.maker_order_id, keccak256(b"maker"));
    assert_eq!(trade.taker_order_id, keccak256(b"taker"));
    assert_eq!(trade.maker, maker_addr);
    assert_eq!(trade.taker, taker_addr);
    assert_eq!(trade.side_taker, Side::Buy);
    assert_eq!(trade.maker_tick, 1);
    assert_eq!(trade.qty_base, U256::from(5u64));
    assert_eq!(trade.quote_amt, U256::from(5u64));
    assert_eq!(trade.taker_fee_quote, U256::zero());
    assert_eq!(output.fee_totals.len(), 1);
    assert_eq!(output.fee_totals[0].asset_id, QUOTE);
    assert_eq!(output.fee_totals[0].total_fee, U256::zero());

    let taker_order = order(&state.tree, b"taker").expect("taker order stored");
    assert_eq!(taker_order.status, OrderStatus::Filled);
    assert_eq!(taker_order.qty_remaining, U256::zero());
    let maker_order = order(&state.tree, b"maker").expect("maker order stored");
    assert_eq!(maker_order.status, OrderStatus::Open);
    assert_eq!(maker_order.qty_remaining, U256::from(5u64));
    assert_eq!(tick_node(&state.tree, Side::Sell, 1).head_order_id, keccak256(b"maker"));
    assert_eq!(best(&state.tree).best_ask, 1);
    assert_eq!(nonce(&state.tree, &taker_addr), 1);
}

#[test]
fn gtc_sell_rests_on_empty_book() {
    let seller = key_of(0x33);
    let addr = addr_from_key(&seller);
    let mut tree = SparseMerkleTree::new();
    fund(&mut tree, &addr, &BASE, 10, 0);

    let msg = place(&seller, 1, b"ask", Side::Sell, TimeInForce::Gtc, 3, 4, (NONE, NONE));
    let (result, state) = run(tree, &rules(0), &[msg]);
    let output = result.expect("apply batch");

    assert_eq!(balance(&state.tree, &addr, &BASE), (6, 4));
    assert_eq!(best(&state.tree), MarketBest { best_bid: NONE, best_ask: 3 });
    let node = tick_node(&state.tree, Side::Sell, 3);
    assert_eq!(node.head_order_id, keccak256(b"ask"));
    assert_eq!(node.tail_order_id, keccak256(b"ask"));
    assert_eq!(node.prev_tick, NONE);
    assert_eq!(node.next_tick, NONE);
    assert!(output.trades.is_empty());
    assert!(output.fee_totals.is_empty());
    let stored = order(&state.tree, b"ask").expect("order stored");
    assert_eq!(stored.status, OrderStatus::Open);
    assert_eq!(stored.qty_remaining, U256::from(4u64));
    assert_eq!(stored.owner, addr);
    assert_eq!(stored.side, Side::Sell);
    assert_eq!(stored.tick, 3);
    assert_eq!(stored.tif, TimeInForce::Gtc);
    assert_eq!(order_node(&state.tree, b"ask").prev_order_id, [0u8; 32]);
    assert_eq!(order_node(&state.tree, b"ask").next_order_id, [0u8; 32]);
}

#[test]
fn ioc_with_insufficient_depth_fills_partly_and_releases() {
    let maker = key_of(0x11);
    let taker = key_of(0x22);
    let maker_addr = addr_from_key(&maker);
    let taker_addr = addr_from_key(&taker);
    let mut tree = book_with_asks(&[(&maker, b"maker", 2, 3, (NONE, NONE))]);
    fund(&mut tree, &taker_addr, &QUOTE, 10, 0);

    let msg = place(&taker, 1, b"taker", Side::Buy, TimeInForce::Ioc, 2, 5, (NONE, NONE));
    let (result, state) = run(tree, &rules(0), &[msg]);
    let output = result.expect("apply batch");

    assert_eq!(balance(&state.tree, &taker_addr, &BASE), (3, 0));
    assert_eq!(balance(&state.tree, &taker_addr, &QUOTE), (4, 0));
    assert_eq!(balance(&state.tree, &maker_addr, &BASE), (0, 0));
    assert_eq!(balance(&state.tree, &maker_addr, &QUOTE), (6, 0));
    let taker_order = order(&state.tree, b"taker").expect("taker order stored");
    assert_eq!(taker_order.status, OrderStatus::Canceled);
    assert_eq!(taker_order.qty_remaining, U256::zero());
    let maker_order = order(&state.tree, b"maker").expect("maker order stored");
    assert_eq!(maker_order.status, OrderStatus::Filled);
    assert_eq!(maker_order.qty_remaining, U256::zero());
    assert_eq!(output.trades.len(), 1);
    assert_eq!(output.trades[0].qty_base, U256::from(3u64));
    assert_eq!(output.trades[0].quote_amt, U256::from(6u64));
    // the emptied level is gone and the side has no best tick left
    assert_eq!(
        tick_node(&state.tree, Side::Sell, 2),
        TickNode { prev_tick: NONE, next_tick: NONE, head_order_id: [0u8; 32], tail_order_id: [0u8; 32] }
    );
    assert_eq!(best(&state.tree).best_ask, NONE);
}

#[test]
fn cancel_of_a_resting_order() {
    let seller = key_of(0x33);
    let addr = addr_from_key(&seller);
    let tree = book_with_asks(&[(&seller, b"ask", 5, 7, (NONE, NONE))]);
    assert_eq!(balance(&tree, &addr, &BASE), (0, 7));
    assert_eq!(best(&tree).best_ask, 5);

    let msg = cancel(&seller, 2, b"ask");
    let (result, state) = run(tree, &rules(0), &[msg]);
    let output = result.expect("apply batch");

    assert_eq!(balance(&state.tree, &addr, &BASE), (7, 0));
    let stored = order(&state.tree, b"ask").expect("order stored");
    assert_eq!(stored.status, OrderStatus::Canceled);
    assert_eq!(stored.qty_remaining, U256::zero());
    assert_eq!(
        tick_node(&state.tree, Side::Sell, 5),
        TickNode { prev_tick: NONE, next_tick: NONE, head_order_id: [0u8; 32], tail_order_id: [0u8; 32] }
    );
    assert_eq!(best(&state.tree).best_ask, NONE);
    assert!(output.trades.is_empty());
    assert_eq!(nonce(&state.tree, &addr), 2);
}

#[test]
fn cancel_of_the_best_level_moves_best_to_the_next() {
    let a = key_of(0x31);
    let b = key_of(0x32);
    let tree = book_with_asks(&[
        (&a, b"low", 5, 7, (NONE, NONE)),
        (&b, b"high", 8, 2, (5, NONE)),
    ]);
    assert_eq!(best(&tree).best_ask, 5);
    assert_eq!(tick_node(&tree, Side::Sell, 5).next_tick, 8);
    assert_eq!(tick_node(&tree, Side::Sell, 8).prev_tick, 5);

    let (result, state) = run(tree, &rules(0), &[cancel(&a, 2, b"low")]);
    result.expect("apply batch");
    assert_eq!(best(&state.tree).best_ask, 8);
    assert_eq!(tick_node(&state.tree, Side::Sell, 8).prev_tick, NONE);
    assert_eq!(tick_node(&state.tree, Side::Sell, 8).next_tick, NONE);
}

#[test]
fn tick_hint_mismatch_fails() {
    let a = key_of(0x31);
    let b = key_of(0x32);
    let c = key_of(0x34);
    let c_addr = addr_from_key(&c);
    let mut tree = book_with_asks(&[
        (&a, b"low", 5, 7, (NONE, NONE)),
        (&b, b"high", 8, 2, (5, NONE)),
    ]);
    fund(&mut tree, &c_addr, &BASE, 10, 0);
    let before = tree.root();

    // level 5 points on to level 8, not to "none"
    let msg = place(&c, 1, b"mid", Side::Sell, TimeInForce::Gtc, 6, 1, (5, NONE));
    let (result, state) = run(tree, &rules(0), &[msg]);
    assert!(matches!(result, Err(CoreError::Invalid(_))));
    // nothing was written: no nonce, no lock, no order
    assert_eq!(state.tree.root(), before);
    assert_eq!(state.root, before);
    assert_eq!(nonce(&state.tree, &c_addr), 0);
    assert_eq!(balance(&state.tree, &c_addr, &BASE), (10, 0));
    assert_eq!(order(&state.tree, b"mid"), None);
    assert_eq!(tick_node(&state.tree, Side::Sell, 5).next_tick, 8);
    assert_eq!(tick_node(&state.tree, Side::Sell, 8).prev_tick, 5);
    assert_eq!(tick_node(&state.tree, Side::Sell, 6).head_order_id, [0u8; 32]);
    assert_eq!(best(&state.tree).best_ask, 5);
}

#[test]
fn hints_of_an_order_that_fills_whole_are_not_examined() {
    let maker = key_of(0x31);
    let taker = key_of(0x22);
    let taker_addr = addr_from_key(&taker);
    let mut tree = book_with_asks(&[(&maker, b"ask", 5, 7, (NONE, NONE))]);
    fund(&mut tree, &taker_addr, &QUOTE, 100, 0);
    // no bid level 7 or 9 exists, but the order never comes to rest
    let msg = place(&taker, 1, b"buy", Side::Buy, TimeInForce::Gtc, 5, 3, (7, 9));
    let (result, state) = run(clone_of(&tree), &rules(0), &[msg]);
    assert_eq!(result.expect("fills whole").trades.len(), 1);
    assert_eq!(order(&state.tree, b"buy").unwrap().status, OrderStatus::Filled);
    assert_eq!(best(&state.tree).best_bid, NONE);
    // with more than the ask holds, the rest would open a level, and the hints are examined
    let msg = place(&taker, 1, b"buy", Side::Buy, TimeInForce::Gtc, 5, 9, (7, 9));
    let (result, _) = run(clone_of(&tree), &rules(0), &[msg]);
    assert!(matches!(result, Err(CoreError::Invalid(_))));
}

#[test]
fn tick_hints_must_keep_the_order_of_the_side() {
    let a = key_of(0x31);
    let c = key_of(0x34);
    let c_addr = addr_from_key(&c);
    let mut tree = book_with_asks(&[(&a, b"low", 5, 7, (NONE, NONE))]);
    fund(&mut tree, &c_addr, &BASE, 10, 0);
    fund(&mut tree, &c_addr, &QUOTE, 100, 0);

    // an ask at 4 cannot come after the ask at 5
    let msg = place(&c, 1, b"x", Side::Sell, TimeInForce::Gtc, 4, 1, (5, NONE));
    let (result, _) = run(clone_of(&tree), &rules(0), &[msg]);
    assert!(matches!(result, Err(CoreError::Invalid(_))));
    // an ask at 6 cannot come before the ask at 5
    let msg = place(&c, 1, b"x", Side::Sell, TimeInForce::Gtc, 6, 1, (NONE, 5));
    let (result, _) = run(clone_of(&tree), &rules(0), &[msg]);
    assert!(matches!(result, Err(CoreError::Invalid(_))));
    // without a level before it, the level after it must be the best
    let msg = place(&c, 1, b"x", Side::Sell, TimeInForce::Gtc, 4, 1, (NONE, NONE));
    let (result, _) = run(clone_of(&tree), &rules(0), &[msg]);
    assert!(matches!(result, Err(CoreError::Invalid(_))));
    // the right hints are accepted
    let msg = place(&c, 1, b"x", Side::Sell, TimeInForce::Gtc, 4, 1, (NONE, 5));
    let (result, state) = run(clone_of(&tree), &rules(0), &[msg]);
    result.expect("fits");
    assert_eq!(best(&state.tree).best_ask, 4);
    assert_eq!(tick_node(&state.tree, Side::Sell, 4).next_tick, 5);
    assert_eq!(tick_node(&state.tree, Side::Sell, 5).prev_tick, 4);
    // bids descend: a bid at 3 comes after a bid at 4... which is not there yet
    let bid = place(&c, 1, b"b1", Side::Buy, TimeInForce::Gtc, 3, 1, (NONE, NONE));
    let bid2 = place(&c, 2, b"b2", Side::Buy, TimeInForce::Gtc, 4, 1, (NONE, 3));
    let bid3 = place(&c, 3, b"b3", Side::Buy, TimeInForce::Gtc, 2, 1, (3, NONE));
    let (result, state) = run(clone_of(&tree), &rules(0), &[bid, bid2, bid3]);
    result.expect("bids rest");
    assert_eq!(best(&state.tree), MarketBest { best_bid: 4, best_ask: 5 });
    assert_eq!(tick_node(&state.tree, Side::Buy, 4).next_tick, 3);
    assert_eq!(tick_node(&state.tree, Side::Buy, 3).prev_tick, 4);
    assert_eq!(tick_node(&state.tree, Side::Buy, 3).next_tick, 2);
    assert_eq!(tick_node(&state.tree, Side::Buy, 2).prev_tick, 3);
    assert_eq!(balance(&state.tree, &c_addr, &QUOTE), (91, 9));
}

fn clone_of(tree: &SparseMerkleTree) -> SparseMerkleTree {
    let mut copy = SparseMerkleTree::new();
    let mut state = RecordingState::new(SparseMerkleTree::new());
    state.proofs.clear();
    for key in keys_of_interest() {
        if let Some(value) = tree.get(key) {
            copy.update(key, Some(value));
        }
    }
    copy
}

fn keys_of_interest() -> Vec<[u8; 32]> {
    let mut keys = Vec::new();
    for seed in [0x11u8, 0x22, 0x31, 0x32, 0x33, 0x34] {
        let account = addr_from_key(&key_of(seed));
        keys.push(key_balance(&account, &BASE));
        keys.push(key_balance(&account, &QUOTE));
        keys.push(key_nonce(&account));
    }
    for name in [&b"low"[..], b"high", b"mid", b"x", b"maker", b"taker", b"ask", b"first", b"second", b"third"] {
        keys.push(key_order(&keccak256(name)));
        keys.push(key_order_node(&keccak256(name)));
    }
    for tick in 0..12 {
        keys.push(key_tick_node(&MARKET, 0, tick));
        keys.push(key_tick_node(&MARKET, 1, tick));
    }
    keys.push(key_market_best(&MARKET));
    keys.push(key_fee_vault(&QUOTE));
    keys.push(key_fee_vault(&BASE));
    keys
}

#[test]
fn tick_hints_must_name_levels_that_exist() {
    let a = key_of(0x31);
    let c = key_of(0x34);
    let c_addr = addr_from_key(&c);
    let mut tree = book_with_asks(&[(&a, b"low", 5, 7, (NONE, NONE))]);
    fund(&mut tree, &c_addr, &BASE, 10, 0);
    fund(&mut tree, &c_addr, &QUOTE, 100, 0);
    // no level 3 on the ask side, and no level 9
    let msg = place(&c, 1, b"x", Side::Sell, TimeInForce::Gtc, 6, 1, (3, NONE));
    let (result, _) = run(clone_of(&tree), &rules(0), &[msg]);
    assert!(matches!(result, Err(CoreError::Invalid(_))));
    // no level at all on the bid side
    let msg = place(&c, 1, b"x", Side::Buy, TimeInForce::Gtc, 2, 1, (NONE, 1));
    let (result, _) = run(clone_of(&tree), &rules(0), &[msg]);
    assert!(matches!(result, Err(CoreError::Invalid(_))));
    let msg = place(&c, 1, b"x", Side::Buy, TimeInForce::Gtc, 2, 1, (3, NONE));
    let (result, _) = run(clone_of(&tree), &rules(0), &[msg]);
    assert!(matches!(result, Err(CoreError::Invalid(_))));
}

#[test]
fn nonce_gap_fails() {
    let seller = key_of(0x33);
    let addr = addr_from_key(&seller);
    let mut tree = SparseMerkleTree::new();
    fund(&mut tree, &addr, &BASE, 10, 0);

    let first = place(&seller, 1, b"first", Side::Sell, TimeInForce::Gtc, 3, 4, (NONE, NONE));
    let second = place(&seller, 3, b"second", Side::Sell, TimeInForce::Gtc, 3, 1, (NONE, NONE));
    let (result, state) = run(tree, &rules(0), &[first, second]);
    assert!(matches!(result, Err(CoreError::Invalid(_))));
    assert_eq!(nonce(&state.tree, &addr), 1);
    assert_eq!(order(&state.tree, b"first").expect("first stored").status, OrderStatus::Open);
    assert_eq!(order(&state.tree, b"second"), None);
    assert_eq!(balance(&state.tree, &addr, &BASE), (6, 4));
}

#[test]
fn nonces_count_up_from_one() {
    let seller = key_of(0x33);
    let addr = addr_from_key(&seller);
    let mut tree = SparseMerkleTree::new();
    fund(&mut tree, &addr, &BASE, 10, 0);
    let zero = place(&seller, 0, b"first", Side::Sell, TimeInForce::Gtc, 3, 4, (NONE, NONE));
    let (result, _) = run(clone_of(&tree), &rules(0), &[zero]);
    assert!(matches!(result, Err(CoreError::Invalid(_))));
    let two = place(&seller, 2, b"first", Side::Sell, TimeInForce::Gtc, 3, 4, (NONE, NONE));
    let (result, _) = run(clone_of(&tree), &rules(0), &[two]);
    assert!(matches!(result, Err(CoreError::Invalid(_))));

    let batch = [
        place(&seller, 1, b"first", Side::Sell, TimeInForce::Gtc, 3, 4, (NONE, NONE)),
        place(&seller, 2, b"second", Side::Sell, TimeInForce::Gtc, 3, 1, (NONE, NONE)),
        cancel(&seller, 3, b"first"),
    ];
    let (result, state) = run(clone_of(&tree), &rules(0), &batch);
    result.expect("apply batch");
    assert_eq!(nonce(&state.tree, &addr), 3);
    tree.update(key_nonce(&addr), Some(u64::MAX.to_be_bytes().to_vec()));
    let wrapped = place(&seller, 0, b"first", Side::Sell, TimeInForce::Gtc, 3, 4, (NONE, NONE));
    let (result, _) = run(tree, &rules(0), &[wrapped]);
    assert!(matches!(result, Err(CoreError::Invalid(_))));
}

#[test]
fn queue_is_first_come_first_served() {
    let a = key_of(0x31);
    let b = key_of(0x32);
    let c = key_of(0x34);
    let taker = key_of(0x22);
    let taker_addr = addr_from_key(&taker);
    let mut tree = book_with_asks(&[
        (&a, b"first", 5, 2, (NONE, NONE)),
        (&b, b"second", 5, 3, (NONE, NONE)),
        (&c, b"third", 7, 4, (5, NONE)),
    ]);
    let level = tick_node(&tree, Side::Sell, 5);
    assert_eq!(level.head_order_id, keccak256(b"first"));
    assert_eq!(level.tail_order_id, keccak256(b"second"));
    assert_eq!(order_node(&tree, b"first").next_order_id, keccak256(b"second"));
    assert_eq!(order_node(&tree, b"first").prev_order_id, [0u8; 32]);
    assert_eq!(order_node(&tree, b"second").prev_order_id, keccak256(b"first"));
    assert_eq!(order_node(&tree, b"second").next_order_id, [0u8; 32]);
    fund(&mut tree, &taker_addr, &QUOTE, 1000, 0);

    let msg = place(&taker, 1, b"taker", Side::Buy, TimeInForce::Ioc, 7, 6, (NONE, NONE));
    let (result, state) = run(tree, &rules(0), &[msg]);
    let output = result.expect("apply batch");
    let makers: Vec<[u8; 32]> = output.trades.iter().map(|t| t.maker_order_id).collect();
    assert_eq!(makers, vec![keccak256(b"first"), keccak256(b"second"), keccak256(b"third")]);
    let ticks: Vec<i32> = output.trades.iter().map(|t| t.maker_tick).collect();
    assert_eq!(ticks, vec![5, 5, 7]);
    let fills: Vec<U256> = output.trades.iter().map(|t| t.qty_base).collect();
    assert_eq!(fills, vec![U256::from(2u64), U256::from(3u64), U256::from(1u64)]);
    let amounts: Vec<U256> = output.trades.iter().map(|t| t.quote_amt).collect();
    assert_eq!(amounts, vec![U256::from(10u64), U256::from(15u64), U256::from(7u64)]);
    // locked 42 for 6 at 7; spent 32; the rest went back when the order was done
    assert_eq!(balance(&state.tree, &taker_addr, &QUOTE), (958, 10));
    assert_eq!(balance(&state.tree, &taker_addr, &BASE), (6, 0));
    assert_eq!(best(&state.tree).best_ask, 7);
    assert_eq!(tick_node(&state.tree, Side::Sell, 7).prev_tick, NONE);
    assert_eq!(order(&state.tree, b"third").unwrap().qty_remaining, U256::from(3u64));
    assert_eq!(order(&state.tree, b"first").unwrap().status, OrderStatus::Filled);
    assert_eq!(order_node(&state.tree, b"second").prev_order_id, [0u8; 32]);
}

/// The queue of a level, walked on from its head and back from its tail.
fn walks(tree: &SparseMerkleTree, side: Side, tick: i32) -> (Vec<[u8; 32]>, Vec<[u8; 32]>) {
    let links = |id: &[u8; 32]| match tree.get(key_order_node(id)) {
        Some(bytes) => OrderNode::decode(&bytes).unwrap(),
        None => OrderNode { prev_order_id: [0u8; 32], next_order_id: [0u8; 32] },
    };
    let level = tick_node(tree, side, tick);
    let mut on = Vec::new();
    let mut at = level.head_order_id;
    while at != [0u8; 32] {
        assert!(on.len() < 16);
        on.push(at);
        at = links(&at).next_order_id;
    }
    let mut back = Vec::new();
    if !on.is_empty() {
        let mut at = level.tail_order_id;
        while at != [0u8; 32] {
            assert!(back.len() < 16);
            back.push(at);
            at = links(&at).prev_order_id;
        }
    }
    back.reverse();
    (on, back)
}

/// Checks every queue against the ids expected, both ways, and every
/// order named against its status: open orders, and no others, are listed.
fn check_queues(tree: &SparseMerkleTree, expected: &[(Side, i32, Vec<&[u8]>)], names: &[&[u8]]) {
    for (side, tick, listed) in expected.iter() {
        let ids: Vec<[u8; 32]> = listed.iter().map(|n| keccak256(n)).collect();
        let (on, back) = walks(tree, *side, *tick);
        assert_eq!(on, ids);
        assert_eq!(back, ids);
    }
    for name in names {
        let stored = order(tree, name).expect("stored");
        let (on, _) = walks(tree, stored.side, stored.tick);
        assert_eq!(on.contains(&keccak256(name)), stored.status == OrderStatus::Open);
    }
}

#[test]
fn open_orders_are_the_queues_of_their_levels() {
    let a = key_of(0x31);
    let b = key_of(0x32);
    let mut tree = SparseMerkleTree::new();
    fund(&mut tree, &addr_from_key(&a), &BASE, 100, 0);
    fund(&mut tree, &addr_from_key(&b), &BASE, 100, 0);
    let batch = vec![
        place(&a, 1, b"a1", Side::Sell, TimeInForce::Gtc, 5, 2, (NONE, NONE)),
        place(&b, 1, b"b1", Side::Sell, TimeInForce::Gtc, 5, 3, (NONE, NONE)),
        place(&a, 2, b"a2", Side::Sell, TimeInForce::Gtc, 7, 1, (5, NONE)),
        cancel(&b, 2, b"b1"),
    ];
    let (result, state) = run(tree, &rules(0), &batch);
    assert!(result.expect("batch").trades.is_empty());
    check_queues(
        &state.tree,
        &[(Side::Sell, 5, vec![b"a1"]), (Side::Sell, 7, vec![b"a2"]), (Side::Sell, 6, vec![])],
        &[b"a1", b"a2", b"b1"],
    );
    assert_eq!(best(&state.tree).best_ask, 5);
    assert_eq!(tick_node(&state.tree, Side::Sell, 5).prev_tick, NONE);
    assert_eq!(tick_node(&state.tree, Side::Sell, 5).next_tick, 7);
    assert_eq!(tick_node(&state.tree, Side::Sell, 7).prev_tick, 5);
    assert_eq!(tick_node(&state.tree, Side::Sell, 7).next_tick, NONE);
}

#[test]
fn filled_orders_leave_their_queues() {
    let a = key_of(0x31);
    let b = key_of(0x32);
    let taker = key_of(0x22);
    let mut tree = book_with_asks(&[
        (&a, b"a1", 5, 2, (NONE, NONE)),
        (&b, b"b1", 5, 3, (NONE, NONE)),
    ]);
    fund(&mut tree, &addr_from_key(&taker), &QUOTE, 1000, 0);
    let batch = vec![
        place(&taker, 1, b"t1", Side::Buy, TimeInForce::Ioc, 5, 3, (NONE, NONE)),
        place(&taker, 2, b"t2", Side::Buy, TimeInForce::Gtc, 4, 3, (NONE, NONE)),
    ];
    let (result, state) = run(tree, &rules(0), &batch);
    let output = result.expect("batch");
    let makers: Vec<[u8; 32]> = output.trades.iter().map(|t| t.maker_order_id).collect();
    assert_eq!(makers, vec![keccak256(b"a1"), keccak256(b"b1")]);
    check_queues(
        &state.tree,
        &[(Side::Sell, 5, vec![b"b1"]), (Side::Buy, 4, vec![b"t2"]), (Side::Buy, 5, vec![])],
        &[b"a1", b"b1", b"t1", b"t2"],
    );
    assert_eq!(best(&state.tree).best_ask, 5);
    assert_eq!(best(&state.tree).best_bid, 4);
}

#[test]
fn cancel_in_the_middle_of_a_queue_joins_the_neighbours() {
    let a = key_of(0x31);
    let b = key_of(0x32);
    let c = key_of(0x34);
    let tree = book_with_asks(&[
        (&a, b"first", 5, 2, (NONE, NONE)),
        (&b, b"second", 5, 3, (NONE, NONE)),
        (&c, b"third", 5, 4, (NONE, NONE)),
    ]);
    let (result, state) = run(tree, &rules(0), &[cancel(&b, 2, b"second")]);
    result.expect("apply batch");
    assert_eq!(order_node(&state.tree, b"first").next_order_id, keccak256(b"third"));
    assert_eq!(order_node(&state.tree, b"third").prev_order_id, keccak256(b"first"));
    assert_eq!(order_node(&state.tree, b"second"), OrderNode { prev_order_id: [0u8; 32], next_order_id: [0u8; 32] });
    let level = tick_node(&state.tree, Side::Sell, 5);
    assert_eq!(level.head_order_id, keccak256(b"first"));
    assert_eq!(level.tail_order_id, keccak256(b"third"));
    assert_eq!(best(&state.tree).best_ask, 5);
}

#[test]
fn taker_fee_is_rounded_up_and_collected() {
    let maker = key_of(0x11);
    let taker = key_of(0x22);
    let maker_addr = addr_from_key(&maker);
    let taker_addr = addr_from_key(&taker);
    let mut tree = book_with_asks(&[(&maker, b"maker", 3, 5, (NONE, NONE))]);
    fund(&mut tree, &taker_addr, &QUOTE, 100, 0);
    let before: u64 = 100;

    // 30 bps on 15 quote: ceil(15 * 30 / 10000) = 1
    let msg = place(&taker, 1, b"taker", Side::Buy, TimeInForce::Gtc, 4, 5, (NONE, NONE));
    let (result, state) = run(tree, &rules(30), &[msg]);
    let output = result.expect("apply batch");
    assert_eq!(output.trades.len(), 1);
    assert_eq!(output.trades[0].quote_amt, U256::from(15u64));
    assert_eq!(output.trades[0].taker_fee_quote, U256::from(1u64));
    assert_eq!(output.fee_totals.len(), 1);
    assert_eq!(output.fee_totals[0].total_fee, U256::from(1u64));
    assert_eq!(vault(&state.tree, &QUOTE), U256::from(1u64));
    let (t_avail, t_locked) = balance(&state.tree, &taker_addr, &QUOTE);
    let (m_avail, m_locked) = balance(&state.tree, &maker_addr, &QUOTE);
    // locked 20 for 5 at 4, paid 15 and 1 of fee
    assert_eq!((t_avail, t_locked), (80, 4));
    assert_eq!((m_avail, m_locked), (15, 0));
    assert_eq!(t_avail + t_locked + m_avail + m_locked + 1, before);
    let base_total = balance(&state.tree, &taker_addr, &BASE).0 + balance(&state.tree, &maker_addr, &BASE).1;
    assert_eq!(base_total, 5);
    assert_eq!(order(&state.tree, b"taker").unwrap().status, OrderStatus::Filled);
}

#[test]
fn selling_taker_pays_the_fee_from_what_it_receives() {
    let maker = key_of(0x11);
    let taker = key_of(0x22);
    let maker_addr = addr_from_key(&maker);
    let taker_addr = addr_from_key(&taker);
    let mut tree = SparseMerkleTree::new();
    fund(&mut tree, &maker_addr, &QUOTE, 100, 0);
    fund(&mut tree, &taker_addr, &BASE, 10, 0);
    let bid = place(&maker, 1, b"maker", Side::Buy, TimeInForce::Gtc, 6, 10, (NONE, NONE));
    let sell = place(&taker, 1, b"taker", Side::Sell, TimeInForce::Ioc, 5, 4, (NONE, NONE));
    let (result, state) = run(tree, &rules(100), &[bid, sell]);
    let output = result.expect("apply batch");
    assert_eq!(output.trades.len(), 1);
    // 4 at the maker's price 6: 24 quote, fee ceil(24 / 100) = 1
    assert_eq!(output.trades[0].quote_amt, U256::from(24u64));
    assert_eq!(output.trades[0].taker_fee_quote, U256::from(1u64));
    assert_eq!(output.trades[0].side_taker, Side::Sell);
    assert_eq!(balance(&state.tree, &taker_addr, &QUOTE), (23, 0));
    assert_eq!(balance(&state.tree, &taker_addr, &BASE), (6, 0));
    assert_eq!(balance(&state.tree, &maker_addr, &QUOTE), (40, 36));
    assert_eq!(balance(&state.tree, &maker_addr, &BASE), (4, 0));
    assert_eq!(vault(&state.tree, &QUOTE), U256::from(1u64));
    assert_eq!(best(&state.tree).best_bid, 6);
}

#[test]
fn orders_that_do_not_cross_rest() {
    let maker = key_of(0x11);
    let taker = key_of(0x22);
    let taker_addr = addr_from_key(&taker);
    let mut tree = book_with_asks(&[(&maker, b"maker", 5, 3, (NONE, NONE))]);
    fund(&mut tree, &taker_addr, &QUOTE, 100, 0);
    let msg = place(&taker, 1, b"taker", Side::Buy, TimeInForce::Gtc, 4, 2, (NONE, NONE));
    let (result, state) = run(tree, &rules(0), &[msg]);
    let output = result.expect("apply batch");
    assert!(output.trades.is_empty());
    assert_eq!(best(&state.tree), MarketBest { best_bid: 4, best_ask: 5 });
    assert_eq!(balance(&state.tree, &taker_addr, &QUOTE), (92, 8));
    assert_eq!(order(&state.tree, b"taker").unwrap().status, OrderStatus::Open);
}

#[test]
fn placement_rules_are_enforced() {
    let seller = key_of(0x33);
    let addr = addr_from_key(&seller);
    let mut tree = SparseMerkleTree::new();
    fund(&mut tree, &addr, &BASE, 10, 0);
    let attempt = |name: &[u8], tick: i32, qty: u64, rules: &Rules| {
        let msg = place(&seller, 1, name, Side::Sell, TimeInForce::Gtc, tick, qty, (NONE, NONE));
        run(clone_of(&tree), rules, &[msg]).0
    };
    assert!(matches!(attempt(b"x", -1, 1, &rules(0)), Err(CoreError::Invalid(_))));
    assert!(matches!(attempt(b"x", 1, 0, &rules(0)), Err(CoreError::Invalid(_))));
    assert!(matches!(attempt(b"x", 1, 11, &rules(0)), Err(CoreError::Invalid(_))));
    let mut lots = rules(0);
    lots.lot_size = U256::from(4u64);
    assert!(matches!(attempt(b"x", 1, 6, &lots), Err(CoreError::Invalid(_))));
    assert!(attempt(b"x", 1, 8, &lots).is_ok());
    lots.lot_size = U256::zero();
    assert!(matches!(attempt(b"x", 1, 8, &lots), Err(CoreError::Invalid(_))));
    let mut steep = rules(0);
    steep.tick_size = U256::max_value();
    assert!(matches!(attempt(b"x", 2, 1, &steep), Err(CoreError::Math(_))));
    assert!(attempt(b"x", 0, 1, &rules(0)).is_ok());

    // an order id cannot be used twice
    let first = place(&seller, 1, b"x", Side::Sell, TimeInForce::Gtc, 1, 1, (NONE, NONE));
    let again = place(&seller, 2, b"x", Side::Sell, TimeInForce::Gtc, 1, 1, (NONE, NONE));
    let (result, _) = run(clone_of(&tree), &rules(0), &[first, again]);
    assert!(matches!(result, Err(CoreError::Invalid(_))));
}

#[test]
fn batch_rules_are_checked_first() {
    let mut r = rules(0);
    assert!(check_rules(&r, 128).is_ok());
    assert!(matches!(check_rules(&r, 129), Err(CoreError::Invalid(_))));
    r.max_orders_per_batch = 0;
    let seller = key_of(0x33);
    let msg = place(&seller, 1, b"x", Side::Sell, TimeInForce::Gtc, 1, 1, (NONE, NONE));
    let (result, state) = run(SparseMerkleTree::new(), &r, &[msg]);
    assert!(matches!(result, Err(CoreError::Invalid(_))));
    assert!(state.proofs.is_empty());
    let mut r = rules(0);
    r.price_scale = U256::from(1u64);
    assert!(matches!(run(SparseMerkleTree::new(), &r, &[]).0, Err(CoreError::Invalid(_))));
    let mut r = rules(0);
    r.maker_fee_bps = 1;
    assert!(matches!(run(SparseMerkleTree::new(), &r, &[]).0, Err(CoreError::Invalid(_))));
    let (result, state) = run(SparseMerkleTree::new(), &rules(0), &[]);
    let output = result.expect("empty batch");
    assert!(output.trades.is_empty() && output.fee_totals.is_empty());
    assert!(state.proofs.is_empty());
}

#[test]
fn cancel_is_for_the_owner_of_an_open_order() {
    let seller = key_of(0x33);
    let other = key_of(0x34);
    let tree = book_with_asks(&[(&seller, b"ask", 5, 7, (NONE, NONE))]);
    let (result, _) = run(clone_of(&tree), &rules(0), &[cancel(&other, 1, b"ask")]);
    assert!(matches!(result, Err(CoreError::Invalid(_))));
    let (result, _) = run(clone_of(&tree), &rules(0), &[cancel(&seller, 2, b"missing")]);
    assert!(matches!(result, Err(CoreError::Invalid(_))));
    let twice = [cancel(&seller, 2, b"ask"), cancel(&seller, 3, b"ask")];
    let (result, _) = run(clone_of(&tree), &rules(0), &twice);
    assert!(matches!(result, Err(CoreError::Invalid(_))));
}

#[test]
fn forged_signature_fails() {
    let seller = key_of(0x33);
    let other = key_of(0x34);
    let addr = addr_from_key(&seller);
    let mut tree = SparseMerkleTree::new();
    fund(&mut tree, &addr, &BASE, 10, 0);
    let message = Message::Place {
        trader: addr,
        nonce: 1,
        order_id: keccak256(b"x"),
        side: Side::Sell,
        tif: TimeInForce::Gtc,
        tick_index: 1,
        qty_base: U256::from(1u64),
        prev_tick_hint: NONE,
        next_tick_hint: NONE,
    };
    let forged = sign(&other, message);
    let (result, state) = run(tree, &rules(0), &[forged]);
    assert!(matches!(result, Err(CoreError::Signature(_))));
    assert!(state.proofs.is_empty());
}

#[test]
fn matches_per_order_are_limited() {
    let a = key_of(0x31);
    let b = key_of(0x32);
    let taker = key_of(0x22);
    let taker_addr = addr_from_key(&taker);
    let mut tree = book_with_asks(&[
        (&a, b"first", 5, 2, (NONE, NONE)),
        (&b, b"second", 5, 3, (NONE, NONE)),
    ]);
    fund(&mut tree, &taker_addr, &QUOTE, 1000, 0);
    let mut r = rules(0);
    r.max_matches_per_order = 1;
    let two = place(&taker, 1, b"taker", Side::Buy, TimeInForce::Ioc, 5, 3, (NONE, NONE));
    let (result, _) = run(clone_of(&tree), &r, &[two]);
    assert!(matches!(result, Err(CoreError::Invalid(_))));
    let one = place(&taker, 1, b"taker", Side::Buy, TimeInForce::Ioc, 5, 2, (NONE, NONE));
    let (result, _) = run(clone_of(&tree), &r, &[one]);
    assert_eq!(result.expect("one match").trades.len(), 1);
}

#[test]
fn balances_stay_within_the_limit() {
    let maker = key_of(0x11);
    let taker = key_of(0x22);
    let taker_addr = addr_from_key(&taker);
    let mut tree = book_with_asks(&[(&maker, b"maker", 1, 10, (NONE, NONE))]);
    fund(&mut tree, &taker_addr, &QUOTE, 10, 0);
    fund(&mut tree, &taker_addr, &BASE, 999_998, 0);
    // receiving 5 base would lift the taker above the limit of 1_000_000
    let msg = place(&taker, 1, b"taker", Side::Buy, TimeInForce::Ioc, 1, 5, (NONE, NONE));
    let (result, _) = run(clone_of(&tree), &rules(0), &[msg]);
    assert!(matches!(result, Err(CoreError::Invalid(_))));
    let msg = place(&taker, 1, b"taker", Side::Buy, TimeInForce::Ioc, 1, 2, (NONE, NONE));
    let (result, state) = run(clone_of(&tree), &rules(0), &[msg]);
    result.expect("within the limit");
    assert_eq!(balance(&state.tree, &taker_addr, &BASE), (1_000_000, 0));
}

#[test]
fn a_lock_that_would_exceed_the_limit_is_refused() {
    let seller = key_of(0x11);
    let account = addr_from_key(&seller);
    let mut tree = SparseMerkleTree::new();
    fund(&mut tree, &account, &BASE, 1_000_000, 1_000_000);
    // locking 4 more would lift the locked part above the limit of 1_000_000
    let rest = place(&seller, 1, b"rest", Side::Sell, TimeInForce::Gtc, 3, 4, (NONE, NONE));
    let (result, _) = run(clone_of(&tree), &rules(0), &[rest]);
    assert!(matches!(result, Err(CoreError::Invalid(_))));
    let now = place(&seller, 1, b"now", Side::Sell, TimeInForce::Ioc, 3, 4, (NONE, NONE));
    let (result, _) = run(clone_of(&tree), &rules(0), &[now]);
    assert!(matches!(result, Err(CoreError::Invalid(_))));
    // with room for 4 in the locked part the order rests
    fund(&mut tree, &account, &BASE, 1_000_000, 999_996);
    let rest = place(&seller, 1, b"rest", Side::Sell, TimeInForce::Gtc, 3, 4, (NONE, NONE));
    let (result, state) = run(clone_of(&tree), &rules(0), &[rest]);
    result.expect("rests");
    assert_eq!(balance(&state.tree, &account, &BASE), (999_996, 1_000_000));
}

#[test]
fn an_account_that_fills_its_own_order_loses_nothing() {
    let own = key_of(0x11);
    let account = addr_from_key(&own);
    let mut tree = book_with_asks(&[(&own, b"ask", 1, 5, (NONE, NONE))]);
    assert_eq!(balance(&tree, &account, &BASE), (0, 5));
    fund(&mut tree, &account, &QUOTE, 10, 0);
    let buy = place(&own, 2, b"buy", Side::Buy, TimeInForce::Ioc, 1, 5, (NONE, NONE));
    let (result, state) = run(tree, &rules(0), &[buy]);
    let output = result.expect("fills");
    assert_eq!(output.trades.len(), 1);
    assert_eq!(output.trades[0].maker, account);
    assert_eq!(output.trades[0].taker, account);
    // 5 base come back free, and the 5 quote paid are the 5 quote received
    assert_eq!(balance(&state.tree, &account, &BASE), (5, 0));
    assert_eq!(balance(&state.tree, &account, &QUOTE), (10, 0));
    assert_eq!(order(&state.tree, b"ask").unwrap().status, OrderStatus::Filled);
}

#[test]
fn one_asset_for_base_and_quote_is_conserved() {
    let maker = key_of(0x11);
    let taker = key_of(0x22);
    let maker_addr = addr_from_key(&maker);
    let taker_addr = addr_from_key(&taker);
    let mut one = rules(0);
    one.quote_asset_id = BASE;
    let mut tree = SparseMerkleTree::new();
    fund(&mut tree, &maker_addr, &BASE, 10, 0);
    fund(&mut tree, &taker_addr, &BASE, 10, 0);
    let batch = vec![
        place(&maker, 1, b"ask", Side::Sell, TimeInForce::Gtc, 1, 10, (NONE, NONE)),
        place(&taker, 1, b"buy", Side::Buy, TimeInForce::Ioc, 1, 5, (NONE, NONE)),
    ];
    let (result, state) = run(tree, &one, &batch);
    let output = result.expect("fills");
    assert_eq!(output.trades.len(), 1);
    // the taker paid 5 from what it locked and received 5; the maker gave 5 locked and received 5
    assert_eq!(balance(&state.tree, &taker_addr, &BASE), (10, 0));
    assert_eq!(balance(&state.tree, &maker_addr, &BASE), (5, 5));
    assert_eq!(vault(&state.tree, &BASE), U256::zero());
}

#[test]
fn the_id_that_stands_for_no_order_is_refused() {
    let seller = key_of(0x11);
    let account = addr_from_key(&seller);
    let mut tree = SparseMerkleTree::new();
    fund(&mut tree, &account, &BASE, 10, 0);
    let message = Message::Place {
        trader: account,
        nonce: 1,
        order_id: [0u8; 32],
        side: Side::Sell,
        tif: TimeInForce::Gtc,
        tick_index: 3,
        qty_base: U256::from(4u64),
        prev_tick_hint: NONE,
        next_tick_hint: NONE,
    };
    let (result, _) = run(tree, &rules(0), &[sign(&seller, message)]);
    assert!(matches!(result, Err(CoreError::Invalid(_))));
}

#[test]
fn insufficient_funds_fail() {
    let taker = key_of(0x22);
    let taker_addr = addr_from_key(&taker);
    let mut tree = SparseMerkleTree::new();
    fund(&mut tree, &taker_addr, &QUOTE, 9, 0);
    fund(&mut tree, &taker_addr, &BASE, 1, 0);
    let buy = place(&taker, 1, b"taker", Side::Buy, TimeInForce::Gtc, 2, 5, (NONE, NONE));
    assert!(matches!(run(clone_of(&tree), &rules(0), &[buy]).0, Err(CoreError::Invalid(_))));
    let sell = place(&taker, 1, b"taker", Side::Sell, TimeInForce::Gtc, 2, 2, (NONE, NONE));
    assert!(matches!(run(clone_of(&tree), &rules(0), &[sell]).0, Err(CoreError::Invalid(_))));
}

#[test]
fn recorded_proofs_replay_to_the_same_root() {
    let maker = key_of(0x11);
    let taker = key_of(0x22);
    let taker_addr = addr_from_key(&taker);
    let mut tree = book_with_asks(&[(&maker, b"maker", 2, 3, (NONE, NONE))]);
    fund(&mut tree, &taker_addr, &QUOTE, 10, 0);
    let prev_root = tree.root();
    let batch = [
        place(&taker, 1, b"taker", Side::Buy, TimeInForce::Ioc, 2, 5, (NONE, NONE)),
        place(&maker, 2, b"ask", Side::Sell, TimeInForce::Gtc, 9, 0 + 0, (NONE, NONE)),
    ];
    // the second message is refused (quantity zero); replay only the first
    let (result, recorded) = run(tree, &rules(0), &batch[..1]);
    let output = result.expect("recorded");
    assert_ne!(recorded.root, prev_root);
    assert_eq!(recorded.root, recorded.tree.root());

    let proofs = recorded.proofs.clone();
    let count = proofs.len();
    let mut replay = ProofState::new(prev_root, proofs);
    let replayed = apply_batch(&mut replay, MARKET, &rules(0), domain(), &batch[..1]).expect("replayed");
    assert_eq!(replay.root, recorded.root);
    assert_eq!(replay.remaining_proofs(), 0);
    assert_eq!(replay.touched_keys.len(), count);
    assert_eq!(replayed.trades, output.trades);
    assert_eq!(replayed.fee_totals, output.fee_totals);
    let keys: Vec<[u8; 32]> = recorded.proofs.iter().map(|p| p.key).collect();
    assert_eq!(replay.touched_keys, keys);

    // a missing proof, a proof out of order and a wrong root are state errors
    let mut short = ProofState::new(prev_root, recorded.proofs[..count - 1].to_vec());
    let result = apply_batch(&mut short, MARKET, &rules(0), domain(), &batch[..1]);
    assert!(matches!(result, Err(CoreError::State(_))));
    let mut swapped = recorded.proofs.clone();
    swapped.swap(1, 2);
    let mut out_of_order = ProofState::new(prev_root, swapped);
    let result = apply_batch(&mut out_of_order, MARKET, &rules(0), domain(), &batch[..1]);
    assert!(matches!(result, Err(CoreError::State(_))));
    let mut wrong_root = ProofState::new(keccak256(b"elsewhere"), recorded.proofs.clone());
    let result = apply_batch(&mut wrong_root, MARKET, &rules(0), domain(), &batch[..1]);
    assert!(matches!(result, Err(CoreError::State(_))));
}
