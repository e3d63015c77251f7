use crate::constants::NONE_ORDER_ID;
use crate::constants::NONE_TICK;
use crate::engine::best_of;
use crate::engine::crosses;
use crate::engine::fill_maker_spec;
use crate::engine::lock_taker_spec;
use crate::engine::match_orders_spec;
use crate::engine::message_spec;
use crate::engine::new_order_of;
use crate::engine::BatchState;
use crate::input::Message;
use crate::input::SignedMessage;
use crate::ledger::keeps;
use crate::state::nonce_key;
use crate::engine::match_step_spec;
use crate::engine::match_tick_spec;
use crate::engine::place_spec;
use crate::engine::Matching;
use crate::engine::NewOrder;
use crate::engine::Store;
use crate::engine::Taker;
use crate::input::Rules;
use crate::ledger::collision_free;
use crate::ledger::lemma_balance_writes_keep;
use crate::ledger::lemma_key_facts;
use crate::ledger::Kind;
use crate::levels::at;
use crate::levels::book_in_order;
use crate::levels::comes_before;
use crate::levels::lemma_match_orders_keeps_order;
use crate::levels::lemma_match_step_keeps_order;
use crate::levels::lemma_match_tick_links;
use crate::levels::lemma_order_kept;
use crate::levels::level_in_order;
use crate::levels::levels_of;
use crate::levels::side_in_order;
use crate::market::market_in_order;
use crate::queues::entry;
use crate::queues::lemma_match_tick_ends;
use crate::queues::no_order;
use crate::resting::fits_at;
use crate::resting::fits_in_hand;
use crate::resting::lemma_fill_keeps_queues;
use crate::resting::lemma_match_step_keeps_queues;
use crate::resting::lemma_queues_kept;
use crate::resting::level_of;
use crate::resting::queue_of;
use crate::resting::rests_at;
use crate::resting::walked;
use crate::resting::with_queue;
use crate::state::stored_market_best;
use crate::types::FeeTotal;
use crate::types::Side;
use crate::types::TickNode;
use crate::types::TradeRecord;
use crate::verify::price_of;
use vstd::prelude::*;

verus! {

/// Whether tick `b` is tick `a` or comes after it in the order of a side.
pub open spec fn at_or_after(side: Side, a: i32, b: i32) -> bool {
    a == b || comes_before(side, a, b)
}

/// Whether `grown` are the trades `trades` with more trades after them.
pub open spec fn grown_from(trades: Seq<TradeRecord>, grown: Seq<TradeRecord>) -> bool {
    grown.len() >= trades.len() && grown.take(trades.len() as int) == trades
}

/// Whether the trades from `from` on were all made at the level `tick`.
pub open spec fn made_at(trades: Seq<TradeRecord>, from: int, tick: i32) -> bool {
    forall|j: int| from <= j < trades.len() ==> (#[trigger] trades[j]).maker_tick == tick
}

/// Whether the trades from `from` on were made best level first: each at
/// the level `first` or a level after it in the order of the side, and
/// none at a level before the level of a trade before it.
pub open spec fn best_first(trades: Seq<TradeRecord>, from: int, side: Side, first: i32) -> bool {
    &&& forall|j: int|
        from <= j < trades.len() ==> at_or_after(side, first, (#[trigger] trades[j]).maker_tick)
    &&& forall|i: int, j: int|
        from <= i < j < trades.len() ==> at_or_after(
            side,
            (#[trigger] trades[i]).maker_tick,
            (#[trigger] trades[j]).maker_tick,
        )
}

/// The trade of a fill is made at the level that is matched: absent
/// collisions, with the level in hand, the maker's tick in the trade is
/// the tick of the level.
pub proof fn lemma_fill_trade_tick(
    store: Store,
    taker: Taker,
    rules: Rules,
    tick_price: nat,
    node: TickNode,
    remaining: nat,
    totals: Seq<FeeTotal>,
    market: [u8; 32],
    queues: spec_fn(Side, i32) -> Seq<Seq<u8>>,
    side: Side,
    tick: i32,
)
    requires
        fits_in_hand(store, market, queues, side, tick, node),
        node.head_order_id@ != NONE_ORDER_ID@,
        fill_maker_spec(store, taker, rules, tick_price, node, remaining, totals) is Some,
    ensures
        fill_maker_spec(
            store,
            taker,
            rules,
            tick_price,
            node,
            remaining,
            totals,
        ).unwrap().trade.maker_tick == tick,
{
    reveal(fill_maker_spec);
    reveal(fits_in_hand);
    let q = queue_of(queues, side, tick);
    assert(node.head_order_id@ == entry(q, 0));
    assert(no_order() == NONE_ORDER_ID@);
    assert(q.len() > 0);
    assert(rests_at(store, q[0], side, tick));
}

/// The trades of the matching at a level are made at that level: absent
/// collisions, with the level in hand, the trades in hand stay and every
/// trade that is added is made at the level.
pub proof fn lemma_match_tick_trade_ticks(
    m: Matching,
    node: TickNode,
    taker: Taker,
    rules: Rules,
    tick_price: nat,
    market: [u8; 32],
    queues: spec_fn(Side, i32) -> Seq<Seq<u8>>,
    side: Side,
    tick: i32,
)
    requires
        collision_free(),
        fits_in_hand(m.store, market, queues, side, tick, node),
        match_tick_spec(m, node, taker, rules, tick_price) is Some,
    ensures
        ({
            let after = match_tick_spec(m, node, taker, rules, tick_price).unwrap().0;
            &&& grown_from(m.trades, after.trades)
            &&& made_at(after.trades, m.trades.len() as int, tick)
        }),
    decreases rules.max_matches_per_order - m.matches,
{
    let after = match_tick_spec(m, node, taker, rules, tick_price).unwrap().0;
    if node.head_order_id@ == NONE_ORDER_ID@ || m.remaining == 0 {
        assert(after.trades.take(m.trades.len() as int) =~= m.trades);
    } else {
        lemma_fill_trade_tick(
            m.store,
            taker,
            rules,
            tick_price,
            node,
            m.remaining,
            m.totals,
            market,
            queues,
            side,
            tick,
        );
        lemma_fill_keeps_queues(
            m.store,
            taker,
            rules,
            tick_price,
            node,
            m.remaining,
            m.totals,
            market,
            queues,
            side,
            tick,
        );
        let f = fill_maker_spec(m.store, taker, rules, tick_price, node, m.remaining, m.totals).unwrap();
        let gone: int = if f.node.head_order_id@ == node.head_order_id@ {
            0
        } else {
            1
        };
        let queues1 = with_queue(queues, side, tick, queue_of(queues, side, tick).skip(gone));
        let grown = m.trades.push(f.trade);
        let next = Matching {
            store: f.store,
            remaining: f.remaining,
            matches: m.matches + 1,
            best: m.best,
            totals: f.totals,
            trades: grown,
        };
        lemma_match_tick_trade_ticks(
            next,
            f.node,
            taker,
            rules,
            tick_price,
            market,
            queues1,
            side,
            tick,
        );
        assert(after.trades.take(grown.len() as int) == grown);
        assert(after.trades.take(m.trades.len() as int) =~= grown.take(m.trades.len() as int));
        assert(grown.take(m.trades.len() as int) =~= m.trades);
        assert(after.trades[m.trades.len() as int] == grown[m.trades.len() as int]) by {
            assert(after.trades.take(grown.len() as int)[m.trades.len() as int]
                == after.trades[m.trades.len() as int]);
        }
    }
}

/// The trades of a step of the walk are made at the best level of the
/// other side, and the walk goes on only to a level after it.
///
/// Absent collisions, in a market that is in order and with the best
/// ticks in hand that the contents have: the trades in hand stay; every
/// trade that the step adds is made at the best level; a side without a
/// level gives no trade; and where the walk goes on, the best level is
/// then a level after the one that was matched, or none.
pub proof fn lemma_match_step_trade_ticks(
    m: Matching,
    taker: Taker,
    rules: Rules,
    queues: spec_fn(Side, i32) -> Seq<Seq<u8>>,
)
    requires
        collision_free(),
        market_in_order(m.store, taker.market_id, queues),
        stored_market_best(m.store, taker.market_id@) == Some(m.best),
        match_step_spec(m, taker, rules) is Some,
    ensures
        ({
            let stepped = match_step_spec(m, taker, rules).unwrap();
            let book = taker.side.other();
            let current = best_of(m.best, book);
            let then = best_of(stepped.0.best, book);
            &&& grown_from(m.trades, stepped.0.trades)
            &&& made_at(stepped.0.trades, m.trades.len() as int, current)
            &&& current == NONE_TICK ==> stepped.0.trades == m.trades && !stepped.1
            &&& stepped.1 ==> then == NONE_TICK || comes_before(book, current, then)
        }),
{
    reveal(match_step_spec);
    reveal(fits_in_hand);
    let market = taker.market_id;
    let book = taker.side.other();
    let current = best_of(m.best, book);
    let stepped = match_step_spec(m, taker, rules).unwrap();
    assert(m.trades.take(m.trades.len() as int) =~= m.trades);
    if current != NONE_TICK {
        let tick_price = price_of(current, rules.tick_size@).unwrap();
        if crosses(taker.side, tick_price, taker.limit_price@) && m.remaining != 0 {
            let node = level_of(m.store, market, book, current);
            assert(fits_in_hand(m.store, market, queues, book, current, node)) by {
                assert(fits_at(m.store, market, queues, book, current));
                assert forall|s: Side, t: i32| s != book || t != current implies #[trigger] fits_at(
                    m.store,
                    market,
                    queues,
                    s,
                    t,
                ) by {}
            }
            lemma_match_tick_trade_ticks(
                m,
                node,
                taker,
                rules,
                tick_price,
                market,
                queues,
                book,
                current,
            );
            lemma_match_tick_links(m, node, taker, rules, tick_price);
            lemma_match_tick_ends(m, node, taker, rules, tick_price);
            assert(side_in_order(m.store, market, book));
            assert(at(levels_of(m.store, market, book), current) == node);
            assert(level_in_order(levels_of(m.store, market, book), current, book, current));
        }
    }
}

/// The trades of the walk are made best level first.
///
/// Absent collisions, in a market that is in order and with the best
/// ticks in hand that the contents have: the trades in hand stay, and
/// the trades that the walk adds are made at the best level of the other
/// side or at levels after it, none at a level before the level of a
/// trade before it: asks ascending for a buyer, bids descending for a
/// seller. Within one level they follow the queue from its head, as
/// `lemma_match_tick_first_come` says.
pub proof fn lemma_walk_trades_best_first(
    m: Matching,
    taker: Taker,
    rules: Rules,
    fuel: nat,
    queues: spec_fn(Side, i32) -> Seq<Seq<u8>>,
)
    requires
        collision_free(),
        market_in_order(m.store, taker.market_id, queues),
        stored_market_best(m.store, taker.market_id@) == Some(m.best),
        match_orders_spec(m, taker, rules, fuel) is Some,
    ensures
        ({
            let after = match_orders_spec(m, taker, rules, fuel).unwrap();
            let book = taker.side.other();
            let first = best_of(m.best, book);
            &&& grown_from(m.trades, after.trades)
            &&& first == NONE_TICK ==> after.trades == m.trades
            &&& best_first(after.trades, m.trades.len() as int, book, first)
        }),
    decreases fuel,
{
    let market = taker.market_id;
    let book = taker.side.other();
    let first = best_of(m.best, book);
    lemma_match_step_trade_ticks(m, taker, rules, queues);
    let stepped = match_step_spec(m, taker, rules).unwrap();
    let m1 = stepped.0;
    let after = match_orders_spec(m, taker, rules, fuel).unwrap();
    let n = m.trades.len() as int;
    let n1 = m1.trades.len() as int;
    if stepped.1 {
        lemma_match_step_keeps_order(m, taker, rules);
        lemma_match_step_keeps_queues(m, taker, rules, queues);
        let left = choose|left: spec_fn(Side, i32) -> Seq<Seq<u8>>| #[trigger]
            walked(m.store, m1.store, market, queues, left);
        lemma_walk_trades_best_first(m1, taker, rules, (fuel - 1) as nat, left);
        let then = best_of(m1.best, book);
        assert(after.trades.take(n) =~= m1.trades.take(n)) by {
            assert(after.trades.take(n1) == m1.trades);
        }
        assert forall|j: int| n <= j < after.trades.len() implies at_or_after(
            book,
            first,
            (#[trigger] after.trades[j]).maker_tick,
        ) by {
            if j < n1 {
                assert(after.trades.take(n1)[j] == after.trades[j]);
                assert(m1.trades[j].maker_tick == first);
            } else {
                assert(at_or_after(book, then, after.trades[j].maker_tick));
            }
        }
        assert forall|i: int, j: int| n <= i < j < after.trades.len() implies at_or_after(
            book,
            (#[trigger] after.trades[i]).maker_tick,
            (#[trigger] after.trades[j]).maker_tick,
        ) by {
            if j < n1 {
                assert(after.trades.take(n1)[i] == after.trades[i]);
                assert(after.trades.take(n1)[j] == after.trades[j]);
                assert(m1.trades[i].maker_tick == first);
                assert(m1.trades[j].maker_tick == first);
            } else if i < n1 {
                assert(after.trades.take(n1)[i] == after.trades[i]);
                assert(m1.trades[i].maker_tick == first);
                assert(at_or_after(book, then, after.trades[j].maker_tick));
            } else {
            }
        }
    } else {
        assert forall|i: int, j: int| n <= i < j < after.trades.len() implies at_or_after(
            book,
            (#[trigger] after.trades[i]).maker_tick,
            (#[trigger] after.trades[j]).maker_tick,
        ) by {
            assert(after.trades[i].maker_tick == first);
            assert(after.trades[j].maker_tick == first);
        }
    }
}

/// The trades of a placement are made best level first.
///
/// Absent collisions, in a market that is in order: the trades in hand
/// stay, and the trades that the placement adds are made at the best
/// level of the other side or at levels after it, none at a level before
/// the level of a trade before it.
pub proof fn lemma_place_trades_best_first(
    store: Store,
    market: [u8; 32],
    rules: Rules,
    order: NewOrder,
    totals: Seq<FeeTotal>,
    trades: Seq<TradeRecord>,
    queues: spec_fn(Side, i32) -> Seq<Seq<u8>>,
)
    requires
        collision_free(),
        market_in_order(store, market, queues),
        place_spec(store, market, rules, order, totals, trades) is Some,
    ensures
        ({
            let after = place_spec(store, market, rules, order, totals, trades).unwrap();
            let book = order.side.other();
            let first = best_of(stored_market_best(store, market@).unwrap(), book);
            &&& grown_from(trades, after.trades)
            &&& best_first(after.trades, trades.len() as int, book, first)
        }),
{
    reveal(place_spec);
    lemma_key_facts();
    let qty = order.qty_base@;
    let price = price_of(order.tick_index, rules.tick_size@).unwrap();
    let locked = lock_taker_spec(store, order.trader, order.side, price, qty, rules).unwrap();
    lemma_balance_writes_keep(
        store,
        order.trader,
        order.trader,
        order.side,
        qty,
        price,
        rules,
        arbitrary(),
        Kind::Order,
    );
    lemma_balance_writes_keep(
        store,
        order.trader,
        order.trader,
        order.side,
        qty,
        price,
        rules,
        arbitrary(),
        Kind::OrderNode,
    );
    lemma_balance_writes_keep(
        store,
        order.trader,
        order.trader,
        order.side,
        qty,
        price,
        rules,
        arbitrary(),
        Kind::TickNode,
    );
    lemma_balance_writes_keep(
        store,
        order.trader,
        order.trader,
        order.side,
        qty,
        price,
        rules,
        arbitrary(),
        Kind::MarketBest,
    );
    lemma_queues_kept(store, locked, market, queues);
    assert(book_in_order(store, market));
    lemma_order_kept(store, locked, market, Side::Buy);
    lemma_order_kept(store, locked, market, Side::Sell);
    let best = stored_market_best(locked, market@).unwrap();
    let start = Matching { store: locked, remaining: qty, matches: 0, best, totals, trades };
    let taker = Taker {
        market_id: market,
        trader: order.trader,
        order_id: order.order_id,
        side: order.side,
        limit_price: crate::book::u256(price),
    };
    lemma_walk_trades_best_first(start, taker, rules, u64::MAX as nat, queues);
    lemma_match_orders_keeps_order(start, taker, rules, u64::MAX as nat);
}

/// The trades of a message are made best level first.
///
/// Absent collisions, in a market that is in order: a message that
/// cancels adds no trade, and the trades that a message that places an
/// order adds to the trades of the batch are made at the best level of
/// the other side or at levels after it, none at a level before the
/// level of a trade before it.
pub proof fn lemma_message_trades_best_first(
    b: BatchState,
    market: [u8; 32],
    rules: Rules,
    domain_sep: [u8; 32],
    signed: SignedMessage,
    queues: spec_fn(Side, i32) -> Seq<Seq<u8>>,
)
    requires
        collision_free(),
        market_in_order(b.store, market, queues),
        message_spec(b, market, rules, domain_sep, signed) is Some,
    ensures
        ({
            let after = message_spec(b, market, rules, domain_sep, signed).unwrap();
            let best = stored_market_best(b.store, market@).unwrap();
            &&& grown_from(b.trades, after.trades)
            &&& signed.message is Cancel ==> after.trades == b.trades
            &&& signed.message is Place ==> best_first(
                after.trades,
                b.trades.len() as int,
                signed.message->side.other(),
                best_of(best, signed.message->side.other()),
            )
        }),
{
    reveal(message_spec);
    lemma_key_facts();
    let message = signed.message;
    let counted = b.store.insert(
        nonce_key(message.sender()@),
        crate::bytes::be_bytes(message.sequence() as nat, 8),
    );
    assert(keeps(b.store, counted, Kind::Order));
    assert(keeps(b.store, counted, Kind::OrderNode));
    assert(keeps(b.store, counted, Kind::TickNode));
    assert(keeps(b.store, counted, Kind::MarketBest));
    lemma_queues_kept(b.store, counted, market, queues);
    assert(book_in_order(b.store, market));
    lemma_order_kept(b.store, counted, market, Side::Buy);
    lemma_order_kept(b.store, counted, market, Side::Sell);
    assert(b.trades.take(b.trades.len() as int) =~= b.trades);
    match message {
        Message::Place { .. } => {
            lemma_place_trades_best_first(
                counted,
                market,
                rules,
                new_order_of(message),
                b.totals,
                b.trades,
                queues,
            );
        },
        Message::Cancel { .. } => {},
    }
}

} // verus!
