use crate::constants::NONE_ORDER_ID;
use crate::constants::NONE_TICK;
use crate::engine::batch_spec;
use crate::engine::best_of;
use crate::engine::cancel_spec;
use crate::engine::empty_order_node;
use crate::engine::empty_tick_node;
use crate::engine::lock_amount;
use crate::engine::lock_asset;
use crate::engine::release_spec;
use crate::engine::remove_from_book_spec;
use crate::engine::with_best;
use crate::engine::certain_to_rest;
use crate::engine::early_hints_fit;
use crate::engine::hints_fit;
use crate::engine::lock_taker_spec;
use crate::engine::match_orders_spec;
use crate::engine::match_step_spec;
use crate::engine::place_resting_spec;
use crate::engine::Matching;
use crate::engine::Taker;
use crate::engine::level_exists;
use crate::engine::message_spec;
use crate::engine::new_order_of;
use crate::engine::place_spec;
use crate::engine::run_messages;
use crate::engine::BatchState;
use crate::engine::NewOrder;
use crate::engine::Store;
use crate::input::Message;
use crate::input::Rules;
use crate::input::SignedMessage;
use crate::ledger::collision_free;
use crate::ledger::keeps;
use crate::ledger::lemma_balance_writes_keep;
use crate::ledger::lemma_keeps_on;
use crate::ledger::record_key;
use crate::ledger::lemma_key_facts;
use crate::ledger::Kind;
use crate::levels::book_in_order;
use crate::levels::lemma_cancel_keeps_order;
use crate::levels::lemma_order_kept;
use crate::levels::lemma_place_keeps_order;
use crate::levels::side_in_order;
use crate::queues::entry;
use crate::queues::no_order;
use crate::resting::fits_at;
use crate::resting::lemma_cancel_keeps_queues;
use crate::resting::lemma_empty_market_in_order;
use crate::resting::lemma_place_keeps_queues;
use crate::resting::lemma_queues_kept;
use crate::resting::level_of;
use crate::resting::listed_if_open;
use crate::resting::no_queues;
use crate::resting::queue_of;
use crate::resting::queues_fit;
use crate::resting::with_queue;
use crate::state::balance_key;
use crate::state::lookup;
use crate::state::order_key;
use crate::state::order_node_key;
use crate::state::stored_balance;
use crate::state::stored_order_node;
use crate::state::nonce_key;
use crate::state::stored_market_best;
use crate::state::stored_tick_node;
use crate::state::tick_node_key;
use crate::state::stored_order;
use crate::types::Balance;
use crate::types::FeeTotal;
use crate::types::Order;
use crate::types::OrderStatus;
use crate::types::TickNode;
use crate::types::Side;
use crate::types::TimeInForce;
use crate::types::TradeRecord;
use crate::verify::price_of;
use vstd::prelude::*;

verus! {

/// Whether a market is in order, with `queues` as its queues.
///
/// On each side, walking on from the best level goes strictly down the
/// bids and strictly up the asks, and walking back undoes walking on. At
/// each level, the head points back to no order, the tail points on to no
/// order, and walking on from the head and walking back from the tail
/// pass the same orders. No order is in two queues, and every open order
/// is in the queue of its level.
pub open spec fn market_in_order(
    store: Store,
    market: [u8; 32],
    queues: spec_fn(Side, i32) -> Seq<Seq<u8>>,
) -> bool {
    book_in_order(store, market) && queues_fit(store, market, queues)
}

/// A market that holds nothing is in order.
pub proof fn lemma_empty_market(market: [u8; 32])
    ensures
        market_in_order(Map::<Seq<u8>, Seq<u8>>::empty(), market, no_queues()),
{
    lemma_empty_market_in_order(market);
}

/// Placing an order keeps the market in order: absent collisions, a
/// market that is in order before the placement is in order after it.
pub proof fn lemma_place_keeps_market(
    store: Store,
    market: [u8; 32],
    rules: Rules,
    order: NewOrder,
    totals: Seq<FeeTotal>,
    trades: Seq<TradeRecord>,
    queues: spec_fn(Side, i32) -> Seq<Seq<u8>>,
)
    requires
        collision_free(),
        market_in_order(store, market, queues),
        place_spec(store, market, rules, order, totals, trades) is Some,
    ensures
        exists|left: spec_fn(Side, i32) -> Seq<Seq<u8>>| #[trigger]
            market_in_order(
                place_spec(store, market, rules, order, totals, trades).unwrap().store,
                market,
                left,
            ),
{
    let after = place_spec(store, market, rules, order, totals, trades).unwrap().store;
    lemma_place_keeps_order(store, market, rules, order, totals, trades);
    lemma_place_keeps_queues(store, market, rules, order, totals, trades, queues);
    let left = choose|left: spec_fn(Side, i32) -> Seq<Seq<u8>>| #[trigger]
        queues_fit(after, market, left);
    assert(market_in_order(after, market, left));
}

/// Cancelling an order keeps the market in order: absent collisions, a
/// market that is in order before the cancellation is in order after it.
pub proof fn lemma_cancel_keeps_market(
    store: Store,
    market: [u8; 32],
    rules: Rules,
    trader: [u8; 20],
    order_id: [u8; 32],
    queues: spec_fn(Side, i32) -> Seq<Seq<u8>>,
)
    requires
        collision_free(),
        market_in_order(store, market, queues),
        cancel_spec(store, market, rules, trader, order_id) is Some,
    ensures
        exists|left: spec_fn(Side, i32) -> Seq<Seq<u8>>| #[trigger]
            market_in_order(
                cancel_spec(store, market, rules, trader, order_id).unwrap(),
                market,
                left,
            ),
{
    reveal(cancel_spec);
    let after = cancel_spec(store, market, rules, trader, order_id).unwrap();
    let order = stored_order(store, order_id@).unwrap().unwrap();
    let q = queue_of(queues, order.side, order.tick);
    assert(listed_if_open(stored_order(store, order_id@), queues, order_id@));
    assert(q.contains(order_id@));
    let place = choose|i: int| 0 <= i < q.len() && q[i] == order_id@;
    assert(fits_at(store, market, queues, order.side, order.tick));
    let level = level_of(store, market, order.side, order.tick);
    assert(level.head_order_id@ == entry(q, 0));
    assert(q[0] != no_order());
    assert(no_order() == NONE_ORDER_ID@);
    assert(level_exists(level));
    lemma_cancel_keeps_order(store, market, rules, trader, order_id);
    lemma_cancel_keeps_queues(store, market, rules, trader, order_id, queues, place);
    assert(market_in_order(
        after,
        market,
        with_queue(queues, order.side, order.tick, q.remove(place)),
    ));
}

/// A message keeps the market in order: absent collisions, a market that
/// is in order before the message is carried out is in order after it.
pub proof fn lemma_message_keeps_market(
    b: BatchState,
    market: [u8; 32],
    rules: Rules,
    domain_sep: [u8; 32],
    signed: SignedMessage,
    queues: spec_fn(Side, i32) -> Seq<Seq<u8>>,
)
    requires
        collision_free(),
        market_in_order(b.store, market, queues),
        message_spec(b, market, rules, domain_sep, signed) is Some,
    ensures
        exists|left: spec_fn(Side, i32) -> Seq<Seq<u8>>| #[trigger]
            market_in_order(
                message_spec(b, market, rules, domain_sep, signed).unwrap().store,
                market,
                left,
            ),
{
    reveal(message_spec);
    lemma_key_facts();
    let message = signed.message;
    let trader = message.sender();
    let counted = b.store.insert(
        nonce_key(trader@),
        crate::bytes::be_bytes(message.sequence() as nat, 8),
    );
    assert(keeps(b.store, counted, Kind::Order));
    assert(keeps(b.store, counted, Kind::OrderNode));
    assert(keeps(b.store, counted, Kind::TickNode));
    assert(keeps(b.store, counted, Kind::MarketBest));
    lemma_queues_kept(b.store, counted, market, queues);
    assert(side_in_order(b.store, market, Side::Buy));
    assert(side_in_order(b.store, market, Side::Sell));
    lemma_order_kept(b.store, counted, market, Side::Buy);
    lemma_order_kept(b.store, counted, market, Side::Sell);
    assert(market_in_order(counted, market, queues));
    let after = message_spec(b, market, rules, domain_sep, signed).unwrap().store;
    match message {
        Message::Place { .. } => {
            let order = new_order_of(message);
            lemma_place_keeps_market(counted, market, rules, order, b.totals, b.trades, queues);
            let placed = place_spec(counted, market, rules, order, b.totals, b.trades).unwrap().store;
            let left = choose|left: spec_fn(Side, i32) -> Seq<Seq<u8>>| #[trigger]
                market_in_order(placed, market, left);
            assert(after == placed);
            assert(market_in_order(after, market, left));
        },
        Message::Cancel { trader, order_id, .. } => {
            lemma_cancel_keeps_market(counted, market, rules, trader, order_id, queues);
            let cancelled = cancel_spec(counted, market, rules, trader, order_id).unwrap();
            let left = choose|left: spec_fn(Side, i32) -> Seq<Seq<u8>>| #[trigger]
                market_in_order(cancelled, market, left);
            assert(after == cancelled);
            assert(market_in_order(after, market, left));
        },
    }
}

/// Messages keep the market in order: absent collisions, a market that
/// is in order before the messages are carried out is in order after
/// them.
pub proof fn lemma_messages_keep_market(
    b: BatchState,
    market: [u8; 32],
    rules: Rules,
    domain_sep: [u8; 32],
    messages: Seq<SignedMessage>,
    queues: spec_fn(Side, i32) -> Seq<Seq<u8>>,
)
    requires
        collision_free(),
        market_in_order(b.store, market, queues),
        run_messages(b, market, rules, domain_sep, messages) is Some,
    ensures
        exists|left: spec_fn(Side, i32) -> Seq<Seq<u8>>| #[trigger]
            market_in_order(
                run_messages(b, market, rules, domain_sep, messages).unwrap().store,
                market,
                left,
            ),
    decreases messages.len(),
{
    if messages.len() == 0 {
        assert(run_messages(b, market, rules, domain_sep, messages) == Some(b));
        assert(market_in_order(
            run_messages(b, market, rules, domain_sep, messages).unwrap().store,
            market,
            queues,
        ));
    } else {
        lemma_message_keeps_market(b, market, rules, domain_sep, messages[0], queues);
        let b1 = message_spec(b, market, rules, domain_sep, messages[0]).unwrap();
        let next = choose|left: spec_fn(Side, i32) -> Seq<Seq<u8>>| #[trigger]
            market_in_order(b1.store, market, left);
        let rest = messages.skip(1);
        lemma_messages_keep_market(b1, market, rules, domain_sep, rest, next);
        let done = run_messages(b1, market, rules, domain_sep, rest).unwrap().store;
        let left = choose|left: spec_fn(Side, i32) -> Seq<Seq<u8>>| #[trigger]
            market_in_order(done, market, left);
        assert(run_messages(b, market, rules, domain_sep, messages).unwrap().store == done);
        assert(market_in_order(
            run_messages(b, market, rules, domain_sep, messages).unwrap().store,
            market,
            left,
        ));
    }
}

/// A batch keeps the market in order.
///
/// Absent collisions: when the market is in order before a batch, it is
/// in order after the batch. With `lemma_empty_market`, a market that began with nothing is
/// in order after any number of batches.
pub proof fn lemma_batch_keeps_market(
    store: Store,
    market: [u8; 32],
    rules: Rules,
    domain_sep: [u8; 32],
    messages: Seq<SignedMessage>,
    queues: spec_fn(Side, i32) -> Seq<Seq<u8>>,
)
    requires
        collision_free(),
        market_in_order(store, market, queues),
        batch_spec(store, market, rules, domain_sep, messages) is Some,
    ensures
        exists|left: spec_fn(Side, i32) -> Seq<Seq<u8>>| #[trigger]
            market_in_order(
                batch_spec(store, market, rules, domain_sep, messages).unwrap().store,
                market,
                left,
            ),
{
    let start = BatchState { store, totals: Seq::empty(), trades: Seq::empty() };
    lemma_messages_keep_market(start, market, rules, domain_sep, messages, queues);
    let done = run_messages(start, market, rules, domain_sep, messages).unwrap().store;
    let left = choose|left: spec_fn(Side, i32) -> Seq<Seq<u8>>| #[trigger]
        market_in_order(done, market, left);
    assert(market_in_order(
        batch_spec(store, market, rules, domain_sep, messages).unwrap().store,
        market,
        left,
    ));
}

/// The early check of the hints refuses no order that would be placed.
///
/// Absent collisions: where the placement of an order succeeds once the
/// nonce of its message is stored, the hints of the order are admitted
/// before the nonce is stored. So the early check refuses only orders
/// that come to rest and whose hints do not fit; it changes which
/// messages fail before anything is written, not which messages fail.
pub proof fn lemma_early_check_refuses_no_placed_order(
    store: Store,
    market: [u8; 32],
    rules: Rules,
    order: NewOrder,
    totals: Seq<FeeTotal>,
    trades: Seq<TradeRecord>,
    sender: Seq<u8>,
    nonce: Seq<u8>,
)
    requires
        collision_free(),
        place_spec(store.insert(nonce_key(sender), nonce), market, rules, order, totals, trades)
            is Some,
    ensures
        early_hints_fit(store, market, rules, order),
{
    reveal(place_spec);
    reveal(place_resting_spec);
    reveal(match_step_spec);
    lemma_key_facts();
    let counted = store.insert(nonce_key(sender), nonce);
    assert(keeps(store, counted, Kind::TickNode));
    assert(keeps(store, counted, Kind::MarketBest));
    let qty = order.qty_base@;
    let price = price_of(order.tick_index, rules.tick_size@).unwrap();
    let locked = lock_taker_spec(counted, order.trader, order.side, price, qty, rules).unwrap();
    lemma_balance_writes_keep(
        counted,
        order.trader,
        order.trader,
        order.side,
        qty,
        price,
        rules,
        arbitrary(),
        Kind::TickNode,
    );
    lemma_balance_writes_keep(
        counted,
        order.trader,
        order.trader,
        order.side,
        qty,
        price,
        rules,
        arbitrary(),
        Kind::MarketBest,
    );
    lemma_keeps_on(store, counted, locked, Kind::TickNode);
    lemma_keeps_on(store, counted, locked, Kind::MarketBest);
    assert(stored_market_best(locked, market@) == stored_market_best(store, market@)) by {
        assert(lookup(locked, record_key(Kind::MarketBest, market@)) == lookup(
            store,
            record_key(Kind::MarketBest, market@),
        ));
    }
    assert forall|t: i32| #[trigger]
        stored_tick_node(locked, market@, order.side.code(), t) == stored_tick_node(
            store,
            market@,
            order.side.code(),
            t,
        ) by {
        let k = record_key(
            Kind::TickNode,
            market@ + seq![order.side.code()] + crate::bytes::be_bytes(crate::bytes::i32_bits(t), 4),
        );
        assert(lookup(locked, k) == lookup(store, k));
    }
    let best = stored_market_best(locked, market@).unwrap();
    if order.tif == TimeInForce::Gtc && certain_to_rest(best, rules, order) {
        crate::book::lemma_u256(crate::book::u256(price), price);
        let start = Matching { store: locked, remaining: qty, matches: 0, best, totals, trades };
        let taker = Taker {
            market_id: market,
            trader: order.trader,
            order_id: order.order_id,
            side: order.side,
            limit_price: crate::book::u256(price),
        };
        assert(match_step_spec(start, taker, rules) == Some((start, false)));
        assert(match_orders_spec(start, taker, rules, u64::MAX as nat) == Some(start));
        let node = stored_tick_node(locked, market@, order.side.code(), order.tick_index).unwrap();
        assert(stored_tick_node(store, market@, order.side.code(), order.tick_index) == Some(node));
        if !level_exists(node) {
            assert(hints_fit(
                locked,
                market,
                order.side,
                order.tick_index,
                order.prev_tick_hint,
                order.next_tick_hint,
                best,
            ));
            assert(stored_tick_node(store, market@, order.side.code(), order.prev_tick_hint)
                == stored_tick_node(locked, market@, order.side.code(), order.prev_tick_hint));
            assert(stored_tick_node(store, market@, order.side.code(), order.next_tick_hint)
                == stored_tick_node(locked, market@, order.side.code(), order.next_tick_hint));
        }
    }
}

/// Whether the order `order_id` of `trader` rests alone at the best
/// level of its side, open, with what it locks held locked and room for
/// it in the free part of the trader's balance.
pub open spec fn rests_alone(
    store: Store,
    market: [u8; 32],
    rules: Rules,
    trader: [u8; 20],
    order_id: [u8; 32],
) -> bool {
    match stored_order(store, order_id@) {
        Some(Some(order)) => {
            let asset = lock_asset(order.side, rules);
            &&& order.owner@ == trader@
            &&& order.status == OrderStatus::Open
            &&& order_id@ != NONE_ORDER_ID@
            &&& order.tick != NONE_TICK
            &&& price_of(order.tick, rules.tick_size@) matches Some(price) && lock_amount(
                order.side,
                price,
                order.qty_remaining@,
                rules,
            ) matches Some(amount) && stored_balance(store, trader@, asset@) matches Some(b)
                && b.locked@ >= amount && b.available@ + amount <= rules.max_balance@
                && b.locked@ - amount <= rules.max_balance@ && b.available@ + amount
                < crate::wide::two_256()
            &&& stored_order_node(store, order_id@) matches Some(links) && links.prev_order_id@
                == NONE_ORDER_ID@ && links.next_order_id@ == NONE_ORDER_ID@
            &&& stored_tick_node(store, market@, order.side.code(), order.tick) matches Some(level)
                && level.head_order_id@ == order_id@ && level.tail_order_id@ == order_id@
                && level.prev_tick == NONE_TICK && level.next_tick != order.tick && (
            level.next_tick != NONE_TICK ==> stored_tick_node(
                store,
                market@,
                order.side.code(),
                level.next_tick,
            ) is Some)
            &&& stored_market_best(store, market@) matches Some(best) && best_of(best, order.side)
                == order.tick
        },
        _ => false,
    }
}

/// The cancellation of an order that rests alone at the best level of
/// its side.
///
/// Absent collisions, the cancellation succeeds. Afterwards what the
/// order locked is free again in the trader's balance; the order is
/// stored cancelled with nothing left; its level is stored empty,
/// without orders and neighbours; the best tick of the side is the tick
/// that came after the level, or none; and the level that came after,
/// if there is one, has no level before it.
pub proof fn lemma_cancel_of_an_order_alone(
    store: Store,
    market: [u8; 32],
    rules: Rules,
    trader: [u8; 20],
    order_id: [u8; 32],
)
    requires
        collision_free(),
        rests_alone(store, market, rules, trader, order_id),
    ensures
        ({
            let order = stored_order(store, order_id@).unwrap().unwrap();
            let asset = lock_asset(order.side, rules);
            let price = price_of(order.tick, rules.tick_size@).unwrap();
            let amount = lock_amount(order.side, price, order.qty_remaining@, rules).unwrap();
            let b = stored_balance(store, trader@, asset@).unwrap();
            let level = stored_tick_node(store, market@, order.side.code(), order.tick).unwrap();
            let best = stored_market_best(store, market@).unwrap();
            let done = cancel_spec(store, market, rules, trader, order_id);
            &&& done is Some
            &&& stored_balance(done.unwrap(), trader@, asset@) == Some(
                Balance {
                    available: crate::book::u256(b.available@ + amount),
                    locked: crate::book::u256((b.locked@ - amount) as nat),
                },
            )
            &&& stored_order(done.unwrap(), order_id@) == Some(
                Some(
                    Order {
                        owner: order.owner,
                        side: order.side,
                        tick: order.tick,
                        qty_remaining: crate::book::u256(0),
                        tif: order.tif,
                        status: OrderStatus::Canceled,
                    },
                ),
            )
            &&& stored_order_node(done.unwrap(), order_id@) == Some(empty_order_node())
            &&& stored_tick_node(done.unwrap(), market@, order.side.code(), order.tick) == Some(
                empty_tick_node(),
            )
            &&& stored_market_best(done.unwrap(), market@) == Some(
                with_best(best, order.side, level.next_tick),
            )
            &&& level.next_tick != NONE_TICK ==> (stored_tick_node(
                done.unwrap(),
                market@,
                order.side.code(),
                level.next_tick,
            ) matches Some(after) && after.prev_tick == NONE_TICK)
        }),
{
    reveal(cancel_spec);
    reveal(remove_from_book_spec);
    lemma_key_facts();
    let order = stored_order(store, order_id@).unwrap().unwrap();
    let side = order.side;
    let asset = lock_asset(side, rules);
    let price = price_of(order.tick, rules.tick_size@).unwrap();
    let amount = lock_amount(side, price, order.qty_remaining@, rules).unwrap();
    let b = stored_balance(store, trader@, asset@).unwrap();
    let level = stored_tick_node(store, market@, side.code(), order.tick).unwrap();
    let best = stored_market_best(store, market@).unwrap();
    let freed = Balance {
        available: crate::book::u256(b.available@ + amount),
        locked: crate::book::u256((b.locked@ - amount) as nat),
    };
    crate::book::lemma_u256(b.available, b.available@ + amount);
    crate::book::lemma_u256(b.locked, (b.locked@ - amount) as nat);
    crate::types::lemma_balance_decoded(freed, freed.encoded());
    let released = store.insert(balance_key(trader@, asset@), freed.encoded());
    assert(release_spec(store, trader, side, order.qty_remaining@, price, rules) == Some(released));
    let written = Order {
        owner: order.owner,
        side,
        tick: order.tick,
        qty_remaining: crate::book::u256(0),
        tif: order.tif,
        status: OrderStatus::Canceled,
    };
    crate::types::lemma_order_decoded(written, written.encoded());
    let closed = released.insert(order_key(order_id@), written.encoded());
    let cleared = closed.insert(order_node_key(order_id@), empty_order_node().encoded());
    crate::types::lemma_order_node_decoded(empty_order_node(), empty_order_node().encoded());
    crate::types::lemma_tick_node_decoded(empty_tick_node(), empty_tick_node().encoded());
    let moved = with_best(best, side, level.next_tick);
    crate::types::lemma_market_best_decoded(moved, moved.encoded());
    // the keys of the records in play
    let k_bal = record_key(Kind::Balance, trader@ + asset@);
    let k_ord = record_key(Kind::Order, order_id@);
    let k_links = record_key(Kind::OrderNode, order_id@);
    let k_best = record_key(Kind::MarketBest, market@);
    assert(balance_key(trader@, asset@) == k_bal);
    assert(order_key(order_id@) == k_ord);
    assert(order_node_key(order_id@) == k_links);
    assert(crate::state::market_best_key(market@) == k_best);
    assert(stored_tick_node(cleared, market@, side.code(), order.tick) == Some(level));
    assert(stored_order_node(closed, order_id@) == stored_order_node(store, order_id@));
    assert(stored_market_best(cleared, market@) == Some(best));
    let next = level.next_tick;
    if next != NONE_TICK {
        let after = stored_tick_node(store, market@, side.code(), next).unwrap();
        assert(stored_tick_node(cleared, market@, side.code(), next) == Some(after));
        let relinked = TickNode {
            prev_tick: NONE_TICK,
            next_tick: after.next_tick,
            head_order_id: after.head_order_id,
            tail_order_id: after.tail_order_id,
        };
        crate::types::lemma_tick_node_decoded(relinked, relinked.encoded());
        if tick_node_key(market@, side.code(), next) == tick_node_key(
            market@,
            side.code(),
            order.tick,
        ) {
            crate::levels::lemma_level_keys_apart(
                market,
                side.code(),
                next,
                market,
                side.code(),
                order.tick,
            );
        }
    }
}

} // verus!
