use crate::book::fill_terms_spec;
use crate::book::lemma_lock_release_conserve;
use crate::book::lock_funds_spec;
use crate::book::release_funds_spec;
use crate::book::within_limit;
use crate::book::FillTerms;
use crate::constants::NONE_ORDER_ID;
use crate::constants::NONE_TICK;
use crate::engine::adjust_spec;
use crate::engine::batch_spec;
use crate::engine::then_adjust;
use crate::engine::best_of;
use crate::engine::message_spec;
use crate::engine::new_order_of;
use crate::engine::run_messages;
use crate::engine::BatchState;
use crate::input::Message;
use crate::input::SignedMessage;
use crate::state::nonce_key;
use crate::engine::cancel_spec;
use crate::engine::closed_order;
use crate::engine::collect_fee_spec;
use crate::engine::crosses;
use crate::engine::fill_maker_spec;
use crate::engine::lock_amount;
use crate::engine::lock_asset;
use crate::engine::lock_taker_spec;
use crate::engine::match_orders_spec;
use crate::engine::match_step_spec;
use crate::engine::match_tick_spec;
use crate::engine::place_spec;
use crate::engine::pop_head_spec;
use crate::engine::release_spec;
use crate::engine::settle_fill_spec;
use crate::engine::Matching;
use crate::engine::NewOrder;
use crate::engine::Store;
use crate::engine::Taker;
use crate::input::Rules;
use crate::ledger::collision_free;
use crate::ledger::keeps;
use crate::ledger::lemma_balance_keys_apart;
use crate::ledger::lemma_balance_read_back;
use crate::ledger::lemma_drop_tick_keeps;
use crate::ledger::lemma_fee_collected;
use crate::ledger::lemma_key_facts;
use crate::ledger::lemma_place_resting_keeps;
use crate::ledger::lemma_pop_head_keeps;
use crate::ledger::lemma_remove_from_book_keeps;
use crate::ledger::record_key;
use crate::ledger::Kind;
use crate::state::balance_key;
use crate::state::order_key;
use crate::state::stored_balance;
use crate::state::stored_market_best;
use crate::state::stored_order;
use crate::state::stored_tick_node;
use crate::state::tick_node_key;
use crate::types::lemma_balance_decoded;
use crate::types::Balance;
use crate::types::FeeTotal;
use crate::types::Order;
use crate::types::OrderStatus;
use crate::types::Side;
use crate::types::TickNode;
use crate::types::TimeInForce;
use crate::types::TradeRecord;
use crate::verify::price_of;
use vstd::prelude::*;

verus! {

/// Whether the balance of `account` in `asset`, as the contents have it,
/// is within the limit: neither its free nor its locked part exceeds
/// `max`. Bytes that are no balance set no part.
pub open spec fn balance_fits(store: Store, account: [u8; 20], asset: [u8; 32], max: nat) -> bool {
    match stored_balance(store, account@, asset@) {
        Some(b) => within_limit(b, max),
        None => true,
    }
}

/// Whether the balance of `account` in `asset` is in `after` as it is in
/// `before`, or is within the limit in `after`.
pub open spec fn kept_or_fits(
    before: Store,
    after: Store,
    account: [u8; 20],
    asset: [u8; 32],
    max: nat,
) -> bool {
    stored_balance(after, account@, asset@) == stored_balance(before, account@, asset@)
        || balance_fits(after, account, asset, max)
}

/// Whether both balances of the taker are within the limit.
pub open spec fn taker_fits(store: Store, trader: [u8; 20], rules: Rules) -> bool {
    balance_fits(store, trader, rules.quote_asset_id, rules.max_balance@) && balance_fits(
        store,
        trader,
        rules.base_asset_id,
        rules.max_balance@,
    )
}

/// What a part of the matching does to the limit, for the balance of
/// `account` in `asset` and for the two balances of the taker: each is as
/// it was or within the limit, and where a fill took place, the taker's
/// two are within the limit.
pub open spec fn limits_kept(
    before: Store,
    after: Store,
    filled: bool,
    trader: [u8; 20],
    rules: Rules,
    account: [u8; 20],
    asset: [u8; 32],
) -> bool {
    &&& kept_or_fits(before, after, account, asset, rules.max_balance@)
    &&& kept_or_fits(before, after, trader, rules.quote_asset_id, rules.max_balance@)
    &&& kept_or_fits(before, after, trader, rules.base_asset_id, rules.max_balance@)
    &&& filled ==> taker_fits(after, trader, rules)
}

/// When no balance is written, every balance is as it was.
proof fn lemma_balance_kept(before: Store, after: Store, account: [u8; 20], asset: [u8; 32])
    requires
        collision_free(),
        keeps(before, after, Kind::Balance),
    ensures
        stored_balance(after, account@, asset@) == stored_balance(before, account@, asset@),
{
    lemma_key_facts();
    assert(balance_key(account@, asset@) == record_key(Kind::Balance, account@ + asset@));
}

/// When no balance is written, the limit is kept.
proof fn lemma_limits_untouched(
    before: Store,
    after: Store,
    trader: [u8; 20],
    rules: Rules,
    account: [u8; 20],
    asset: [u8; 32],
)
    requires
        collision_free(),
        keeps(before, after, Kind::Balance),
    ensures
        stored_balance(after, account@, asset@) == stored_balance(before, account@, asset@),
        stored_balance(after, trader@, rules.quote_asset_id@) == stored_balance(
            before,
            trader@,
            rules.quote_asset_id@,
        ),
        stored_balance(after, trader@, rules.base_asset_id@) == stored_balance(
            before,
            trader@,
            rules.base_asset_id@,
        ),
{
    lemma_balance_kept(before, after, account, asset);
    lemma_balance_kept(before, after, trader, rules.quote_asset_id);
    lemma_balance_kept(before, after, trader, rules.base_asset_id);
}

/// Locking the taker's funds leaves every other balance as it is.
pub proof fn lemma_lock_keeps_others(
    store: Store,
    trader: [u8; 20],
    side: Side,
    price: nat,
    qty: nat,
    rules: Rules,
    account: [u8; 20],
    asset: [u8; 32],
)
    requires
        collision_free(),
        lock_taker_spec(store, trader, side, price, qty, rules) is Some,
        account@ != trader@ || asset@ != lock_asset(side, rules)@,
    ensures
        stored_balance(
            lock_taker_spec(store, trader, side, price, qty, rules).unwrap(),
            account@,
            asset@,
        ) == stored_balance(store, account@, asset@),
{
    let locked = lock_asset(side, rules);
    if balance_key(account@, asset@) == balance_key(trader@, locked@) {
        lemma_balance_keys_apart(account, asset, trader, locked);
    }
}

/// Locking the taker's funds leaves the balance that they are taken
/// from within the limit.
pub proof fn lemma_lock_limits(
    store: Store,
    trader: [u8; 20],
    side: Side,
    price: nat,
    qty: nat,
    rules: Rules,
)
    requires
        lock_taker_spec(store, trader, side, price, qty, rules) is Some,
    ensures
        balance_fits(
            lock_taker_spec(store, trader, side, price, qty, rules).unwrap(),
            trader,
            lock_asset(side, rules),
            rules.max_balance@,
        ),
{
    let locked = lock_asset(side, rules);
    let amount = lock_amount(side, price, qty, rules).unwrap();
    let before = stored_balance(store, trader@, locked@).unwrap();
    lemma_lock_release_conserve(before, amount, rules.max_balance@);
    let b = lock_funds_spec(before, amount, rules.max_balance@).unwrap();
    lemma_balance_read_back(store, trader, locked, b);
}

/// Releasing locked funds leaves the released balance within the limit
/// and every other balance as it is.
pub proof fn lemma_release_limits(
    store: Store,
    trader: [u8; 20],
    side: Side,
    remaining: nat,
    price: nat,
    rules: Rules,
    account: [u8; 20],
    asset: [u8; 32],
)
    requires
        collision_free(),
        release_spec(store, trader, side, remaining, price, rules) is Some,
    ensures
        ({
            let after = release_spec(store, trader, side, remaining, price, rules).unwrap();
            &&& kept_or_fits(store, after, account, asset, rules.max_balance@)
            &&& balance_fits(after, trader, lock_asset(side, rules), rules.max_balance@)
        }),
{
    let locked = lock_asset(side, rules);
    let amount = lock_amount(side, price, remaining, rules).unwrap();
    let before = stored_balance(store, trader@, locked@).unwrap();
    lemma_lock_release_conserve(before, amount, rules.max_balance@);
    let b = release_funds_spec(before, amount, rules.max_balance@).unwrap();
    lemma_balance_read_back(store, trader, locked, b);
    if balance_key(account@, asset@) == balance_key(trader@, locked@) {
        lemma_balance_keys_apart(account, asset, trader, locked);
    }
}

/// One update of a fill leaves the balance that it writes within the
/// limit and every other balance as it is.
pub proof fn lemma_adjust_limits(
    store: Store,
    account: [u8; 20],
    asset: [u8; 32],
    taken: nat,
    given: nat,
    max: nat,
    who: [u8; 20],
    what: [u8; 32],
)
    requires
        adjust_spec(store, account, asset, taken, given, max) is Some,
    ensures
        ({
            let after = adjust_spec(store, account, asset, taken, given, max).unwrap();
            &&& kept_or_fits(store, after, who, what, max)
            &&& balance_fits(after, account, asset, max)
        }),
{
    let before = stored_balance(store, account@, asset@).unwrap();
    crate::book::lemma_adjusted(before, taken, given, max);
    let b = crate::book::adjusted(before, taken, given, max).unwrap();
    lemma_balance_decoded(b, b.encoded());
}

/// The four updates of a fill, one after another, keep the limit: a
/// balance is as it was or within the limit after each, and a balance
/// that one of them writes is within the limit from then on.
proof fn lemma_four_adjust_limits(
    store: Store,
    a1: [u8; 20],
    x1: [u8; 32],
    t1: nat,
    g1: nat,
    a2: [u8; 20],
    x2: [u8; 32],
    t2: nat,
    g2: nat,
    a3: [u8; 20],
    x3: [u8; 32],
    t3: nat,
    g3: nat,
    a4: [u8; 20],
    x4: [u8; 32],
    t4: nat,
    g4: nat,
    max: nat,
    who: [u8; 20],
    what: [u8; 32],
)
    requires
        then_adjust(
            then_adjust(
                then_adjust(adjust_spec(store, a1, x1, t1, g1, max), a2, x2, t2, g2, max),
                a3,
                x3,
                t3,
                g3,
                max,
            ),
            a4,
            x4,
            t4,
            g4,
            max,
        ) is Some,
    ensures
        ({
            let after = then_adjust(
                then_adjust(
                    then_adjust(adjust_spec(store, a1, x1, t1, g1, max), a2, x2, t2, g2, max),
                    a3,
                    x3,
                    t3,
                    g3,
                    max,
                ),
                a4,
                x4,
                t4,
                g4,
                max,
            ).unwrap();
            &&& kept_or_fits(store, after, who, what, max)
            &&& balance_fits(after, a1, x1, max)
            &&& balance_fits(after, a2, x2, max)
        }),
{
    let s1 = adjust_spec(store, a1, x1, t1, g1, max).unwrap();
    let s2 = adjust_spec(s1, a2, x2, t2, g2, max).unwrap();
    let s3 = adjust_spec(s2, a3, x3, t3, g3, max).unwrap();
    lemma_adjust_limits(store, a1, x1, t1, g1, max, who, what);
    lemma_adjust_limits(s1, a2, x2, t2, g2, max, who, what);
    lemma_adjust_limits(s2, a3, x3, t3, g3, max, who, what);
    lemma_adjust_limits(s3, a4, x4, t4, g4, max, who, what);
    lemma_adjust_limits(s1, a2, x2, t2, g2, max, a1, x1);
    lemma_adjust_limits(s2, a3, x3, t3, g3, max, a1, x1);
    lemma_adjust_limits(s3, a4, x4, t4, g4, max, a1, x1);
    lemma_adjust_limits(s2, a3, x3, t3, g3, max, a2, x2);
    lemma_adjust_limits(s3, a4, x4, t4, g4, max, a2, x2);
}

/// A fill leaves each balance that it writes within the limit and every
/// other balance as it is, whoever the maker is and whatever the assets.
pub proof fn lemma_settle_fill_limits(
    store: Store,
    side: Side,
    trader: [u8; 20],
    maker: [u8; 20],
    rules: Rules,
    terms: FillTerms,
    account: [u8; 20],
    asset: [u8; 32],
)
    requires
        settle_fill_spec(store, side, trader, maker, rules, terms) is Some,
    ensures
        limits_kept(
            store,
            settle_fill_spec(store, side, trader, maker, rules, terms).unwrap(),
            true,
            trader,
            rules,
            account,
            asset,
        ),
{
    reveal(settle_fill_spec);
    let quote = rules.quote_asset_id;
    let base = rules.base_asset_id;
    let max = rules.max_balance@;
    let fill = terms.fill_qty@;
    let amount = terms.quote_amt@;
    let fee = terms.fee@;
    match side {
        Side::Buy => {
            lemma_four_adjust_limits(
                store, trader, quote, amount + fee, 0, trader, base, 0, fill, maker, base, fill, 0,
                maker, quote, 0, amount, max, account, asset,
            );
            lemma_four_adjust_limits(
                store, trader, quote, amount + fee, 0, trader, base, 0, fill, maker, base, fill, 0,
                maker, quote, 0, amount, max, trader, quote,
            );
            lemma_four_adjust_limits(
                store, trader, quote, amount + fee, 0, trader, base, 0, fill, maker, base, fill, 0,
                maker, quote, 0, amount, max, trader, base,
            );
        },
        Side::Sell => {
            let receive = (amount - fee) as nat;
            lemma_four_adjust_limits(
                store, trader, base, fill, 0, trader, quote, 0, receive, maker, quote, amount, 0,
                maker, base, 0, fill, max, account, asset,
            );
            lemma_four_adjust_limits(
                store, trader, base, fill, 0, trader, quote, 0, receive, maker, quote, amount, 0,
                maker, base, 0, fill, max, trader, quote,
            );
            lemma_four_adjust_limits(
                store, trader, base, fill, 0, trader, quote, 0, receive, maker, quote, amount, 0,
                maker, base, 0, fill, max, trader, base,
            );
        },
    }
}

/// The fill of a maker leaves the taker's two balances within the limit,
/// and every other balance as it was or within the limit.
pub proof fn lemma_fill_maker_limits(
    store: Store,
    taker: Taker,
    rules: Rules,
    tick_price: nat,
    node: TickNode,
    remaining: nat,
    totals: Seq<FeeTotal>,
    account: [u8; 20],
    asset: [u8; 32],
)
    requires
        collision_free(),
        fill_maker_spec(store, taker, rules, tick_price, node, remaining, totals) is Some,
    ensures
        limits_kept(
            store,
            fill_maker_spec(store, taker, rules, tick_price, node, remaining, totals).unwrap().store,
            true,
            taker.trader,
            rules,
            account,
            asset,
        ),
{
    reveal(fill_maker_spec);
    lemma_key_facts();
    let maker_id = node.head_order_id;
    let maker = stored_order(store, maker_id@).unwrap().unwrap();
    let terms = fill_terms_spec(remaining, maker.qty_remaining@, tick_price, rules).unwrap();
    let settled = settle_fill_spec(store, taker.side, taker.trader, maker.owner, rules, terms).unwrap();
    lemma_settle_fill_limits(
        store,
        taker.side,
        taker.trader,
        maker.owner,
        rules,
        terms,
        account,
        asset,
    );
    let collected = collect_fee_spec(settled, rules.quote_asset_id, terms.fee@).unwrap();
    lemma_fee_collected(settled, rules.quote_asset_id, terms.fee@, account, asset);
    lemma_fee_collected(settled, rules.quote_asset_id, terms.fee@, taker.trader, rules.quote_asset_id);
    lemma_fee_collected(settled, rules.quote_asset_id, terms.fee@, taker.trader, rules.base_asset_id);
    let left = (maker.qty_remaining@ - terms.fill_qty@) as nat;
    let maker1 = Order {
        owner: maker.owner,
        side: maker.side,
        tick: maker.tick,
        qty_remaining: crate::book::u256(left),
        tif: maker.tif,
        status: if left == 0 {
            OrderStatus::Filled
        } else {
            OrderStatus::Open
        },
    };
    let written = collected.insert(order_key(maker_id@), maker1.encoded());
    assert(keeps(collected, written, Kind::Balance));
    lemma_pop_head_keeps(written, node, maker_id, Kind::Balance);
    let f = fill_maker_spec(store, taker, rules, tick_price, node, remaining, totals).unwrap();
    if left == 0 {
        assert(f.store == pop_head_spec(written, node, maker_id).unwrap().0);
    } else {
        assert(f.store == written);
    }
    assert(keeps(collected, f.store, Kind::Balance));
    lemma_limits_untouched(collected, f.store, taker.trader, rules, account, asset);
}

/// The matching at a level keeps the limit: see `limits_kept`. Without a
/// fill, the quantity that remains is the one that was there.
pub proof fn lemma_match_tick_limits(
    m: Matching,
    node: TickNode,
    taker: Taker,
    rules: Rules,
    tick_price: nat,
    account: [u8; 20],
    asset: [u8; 32],
)
    requires
        collision_free(),
        match_tick_spec(m, node, taker, rules, tick_price) is Some,
    ensures
        ({
            let after = match_tick_spec(m, node, taker, rules, tick_price).unwrap().0;
            &&& after.trades.len() >= m.trades.len()
            &&& after.trades.len() == m.trades.len() ==> after.remaining == m.remaining
            &&& limits_kept(
                m.store,
                after.store,
                after.trades.len() > m.trades.len(),
                taker.trader,
                rules,
                account,
                asset,
            )
        }),
    decreases rules.max_matches_per_order - m.matches,
{
    if node.head_order_id@ == NONE_ORDER_ID@ || m.remaining == 0 {
    } else if m.matches >= rules.max_matches_per_order {
    } else {
        lemma_fill_maker_limits(
            m.store,
            taker,
            rules,
            tick_price,
            node,
            m.remaining,
            m.totals,
            account,
            asset,
        );
        let f = fill_maker_spec(m.store, taker, rules, tick_price, node, m.remaining, m.totals).unwrap();
        lemma_match_tick_limits(
            Matching {
                store: f.store,
                remaining: f.remaining,
                matches: m.matches + 1,
                best: m.best,
                totals: f.totals,
                trades: m.trades.push(f.trade),
            },
            f.node,
            taker,
            rules,
            tick_price,
            account,
            asset,
        );
    }
}

/// A step of the walk keeps the limit: see `limits_kept`. Without a fill,
/// the quantity that remains is the one that was there.
pub proof fn lemma_match_step_limits(
    m: Matching,
    taker: Taker,
    rules: Rules,
    account: [u8; 20],
    asset: [u8; 32],
)
    requires
        collision_free(),
        match_step_spec(m, taker, rules) is Some,
    ensures
        ({
            let after = match_step_spec(m, taker, rules).unwrap().0;
            &&& after.trades.len() >= m.trades.len()
            &&& after.trades.len() == m.trades.len() ==> after.remaining == m.remaining
            &&& limits_kept(
                m.store,
                after.store,
                after.trades.len() > m.trades.len(),
                taker.trader,
                rules,
                account,
                asset,
            )
        }),
{
    reveal(match_step_spec);
    lemma_key_facts();
    let book = taker.side.other();
    let current = best_of(m.best, book);
    if current != NONE_TICK {
        let tick_price = price_of(current, rules.tick_size@).unwrap();
        if crosses(taker.side, tick_price, taker.limit_price@) && m.remaining != 0 {
            let node = stored_tick_node(m.store, taker.market_id@, book.code(), current).unwrap();
            lemma_match_tick_limits(m, node, taker, rules, tick_price, account, asset);
            let matched = match_tick_spec(m, node, taker, rules, tick_price).unwrap();
            let m1 = matched.0;
            let node1 = matched.1;
            let after = match_step_spec(m, taker, rules).unwrap().0;
            lemma_drop_tick_keeps(
                m1.store,
                taker.market_id,
                book,
                current,
                node1,
                m1.best,
                Kind::Balance,
            );
            let stored_back = m1.store.insert(
                tick_node_key(taker.market_id@, book.code(), current),
                node1.encoded(),
            );
            assert(keeps(m1.store, stored_back, Kind::Balance));
            assert(keeps(m1.store, after.store, Kind::Balance));
            lemma_limits_untouched(m1.store, after.store, taker.trader, rules, account, asset);
        }
    }
}

/// The walk over the levels keeps the limit: see `limits_kept`. Without a
/// fill, the quantity that remains is the one that was there.
pub proof fn lemma_match_orders_limits(
    m: Matching,
    taker: Taker,
    rules: Rules,
    fuel: nat,
    account: [u8; 20],
    asset: [u8; 32],
)
    requires
        collision_free(),
        match_orders_spec(m, taker, rules, fuel) is Some,
    ensures
        ({
            let after = match_orders_spec(m, taker, rules, fuel).unwrap();
            &&& after.trades.len() >= m.trades.len()
            &&& after.trades.len() == m.trades.len() ==> after.remaining == m.remaining
            &&& limits_kept(
                m.store,
                after.store,
                after.trades.len() > m.trades.len(),
                taker.trader,
                rules,
                account,
                asset,
            )
        }),
    decreases fuel,
{
    lemma_match_step_limits(m, taker, rules, account, asset);
    let stepped = match_step_spec(m, taker, rules).unwrap();
    if stepped.1 {
        lemma_match_orders_limits(stepped.0, taker, rules, (fuel - 1) as nat, account, asset);
    }
}

/// Placing an order keeps every balance within the limit: absent
/// collisions, a balance that is within the limit before the placement
/// is within the limit after it.
pub proof fn lemma_place_within_limit(
    store: Store,
    market: [u8; 32],
    rules: Rules,
    order: NewOrder,
    totals: Seq<FeeTotal>,
    trades: Seq<TradeRecord>,
    account: [u8; 20],
    asset: [u8; 32],
)
    requires
        collision_free(),
        place_spec(store, market, rules, order, totals, trades) is Some,
        balance_fits(store, account, asset, rules.max_balance@),
    ensures
        balance_fits(
            place_spec(store, market, rules, order, totals, trades).unwrap().store,
            account,
            asset,
            rules.max_balance@,
        ),
{
    reveal(place_spec);
    lemma_key_facts();
    let max = rules.max_balance@;
    let qty = order.qty_base@;
    let price = price_of(order.tick_index, rules.tick_size@).unwrap();
    let lock = lock_asset(order.side, rules);
    let locked = lock_taker_spec(store, order.trader, order.side, price, qty, rules).unwrap();
    let is_lock = account@ == order.trader@ && asset@ == lock@;
    if !is_lock {
        lemma_lock_keeps_others(store, order.trader, order.side, price, qty, rules, account, asset);
    }
    let best = stored_market_best(locked, market@).unwrap();
    let start = Matching { store: locked, remaining: qty, matches: 0, best, totals, trades };
    let taker = Taker {
        market_id: market,
        trader: order.trader,
        order_id: order.order_id,
        side: order.side,
        limit_price: crate::book::u256(price),
    };
    lemma_match_orders_limits(start, taker, rules, u64::MAX as nat, account, asset);
    let m = match_orders_spec(start, taker, rules, u64::MAX as nat).unwrap();
    let after = place_spec(store, market, rules, order, totals, trades).unwrap();
    assert(after.trades == m.trades);
    let releases = order.tif == TimeInForce::Ioc && m.remaining != 0;
    let released = if releases {
        release_spec(m.store, order.trader, order.side, m.remaining, price, rules).unwrap()
    } else {
        m.store
    };
    if releases {
        lemma_release_limits(
            m.store,
            order.trader,
            order.side,
            m.remaining,
            price,
            rules,
            account,
            asset,
        );
    }
    let filled = closed_order(order, OrderStatus::Filled).encoded();
    let canceled = closed_order(order, OrderStatus::Canceled).encoded();
    let with_filled = released.insert(order_key(order.order_id@), filled);
    let with_canceled = released.insert(order_key(order.order_id@), canceled);
    assert(keeps(released, with_filled, Kind::Balance));
    assert(keeps(released, with_canceled, Kind::Balance));
    lemma_balance_kept(released, with_filled, account, asset);
    lemma_balance_kept(released, with_canceled, account, asset);
    lemma_place_resting_keeps(
        m.store,
        market,
        order.order_id,
        order.trader,
        order.side,
        order.tick_index,
        m.remaining,
        order.tif,
        order.prev_tick_hint,
        order.next_tick_hint,
        m.best,
        Kind::Balance,
    );
    if order.tif == TimeInForce::Gtc && m.remaining != 0 {
        lemma_balance_kept(m.store, after.store, account, asset);
    }
    assert(stored_balance(after.store, account@, asset@) == stored_balance(
        released,
        account@,
        asset@,
    ));
    if is_lock {
        assert(account == order.trader);
        assert(asset == lock);
        lemma_lock_limits(store, order.trader, order.side, price, qty, rules);
        assert(balance_fits(locked, account, asset, max));
    }
}

/// Cancelling an order keeps every balance within the limit: absent
/// collisions, a balance that is within the limit before is within the
/// limit afterwards.
pub proof fn lemma_cancel_within_limit(
    store: Store,
    market: [u8; 32],
    rules: Rules,
    trader: [u8; 20],
    order_id: [u8; 32],
    account: [u8; 20],
    asset: [u8; 32],
)
    requires
        collision_free(),
        cancel_spec(store, market, rules, trader, order_id) is Some,
        balance_fits(store, account, asset, rules.max_balance@),
    ensures
        balance_fits(
            cancel_spec(store, market, rules, trader, order_id).unwrap(),
            account,
            asset,
            rules.max_balance@,
        ),
{
    reveal(cancel_spec);
    lemma_key_facts();
    let order = stored_order(store, order_id@).unwrap().unwrap();
    let price = price_of(order.tick, rules.tick_size@).unwrap();
    let released = release_spec(store, trader, order.side, order.qty_remaining@, price, rules).unwrap();
    lemma_release_limits(
        store,
        trader,
        order.side,
        order.qty_remaining@,
        price,
        rules,
        account,
        asset,
    );
    let closed = released.insert(
        order_key(order_id@),
        Order {
            owner: order.owner,
            side: order.side,
            tick: order.tick,
            qty_remaining: crate::book::u256(0),
            tif: order.tif,
            status: OrderStatus::Canceled,
        }.encoded(),
    );
    assert(keeps(released, closed, Kind::Balance));
    lemma_remove_from_book_keeps(closed, market, order.side, order.tick, order_id, Kind::Balance);
    let after = cancel_spec(store, market, rules, trader, order_id).unwrap();
    assert(keeps(released, after, Kind::Balance));
    lemma_balance_kept(released, after, account, asset);
}

/// A message keeps every balance within the limit: absent collisions, a
/// balance that is within the limit before the message is carried out
/// is within the limit after it.
pub proof fn lemma_message_within_limit(
    b: BatchState,
    market: [u8; 32],
    rules: Rules,
    domain_sep: [u8; 32],
    signed: SignedMessage,
    account: [u8; 20],
    asset: [u8; 32],
)
    requires
        collision_free(),
        message_spec(b, market, rules, domain_sep, signed) is Some,
        balance_fits(b.store, account, asset, rules.max_balance@),
    ensures
        balance_fits(
            message_spec(b, market, rules, domain_sep, signed).unwrap().store,
            account,
            asset,
            rules.max_balance@,
        ),
{
    reveal(message_spec);
    lemma_key_facts();
    let message = signed.message;
    let trader = message.sender();
    let counted = b.store.insert(
        nonce_key(trader@),
        crate::bytes::be_bytes(message.sequence() as nat, 8),
    );
    assert(keeps(b.store, counted, Kind::Balance));
    lemma_balance_kept(b.store, counted, account, asset);
    match message {
        Message::Place { .. } => {
            lemma_place_within_limit(
                counted,
                market,
                rules,
                new_order_of(message),
                b.totals,
                b.trades,
                account,
                asset,
            );
        },
        Message::Cancel { trader, order_id, .. } => {
            lemma_cancel_within_limit(counted, market, rules, trader, order_id, account, asset);
        },
    }
}

/// Messages keep every balance within the limit.
pub proof fn lemma_messages_within_limit(
    b: BatchState,
    market: [u8; 32],
    rules: Rules,
    domain_sep: [u8; 32],
    messages: Seq<SignedMessage>,
    account: [u8; 20],
    asset: [u8; 32],
)
    requires
        collision_free(),
        run_messages(b, market, rules, domain_sep, messages) is Some,
        balance_fits(b.store, account, asset, rules.max_balance@),
    ensures
        balance_fits(
            run_messages(b, market, rules, domain_sep, messages).unwrap().store,
            account,
            asset,
            rules.max_balance@,
        ),
    decreases messages.len(),
{
    if messages.len() > 0 {
        lemma_message_within_limit(b, market, rules, domain_sep, messages[0], account, asset);
        let b1 = message_spec(b, market, rules, domain_sep, messages[0]).unwrap();
        lemma_messages_within_limit(b1, market, rules, domain_sep, messages.skip(1), account, asset);
    }
}

/// A batch keeps every balance within the limit.
///
/// Absent collisions: a balance of which neither part exceeds the limit
/// before a batch has no part that exceeds it after the batch. So where
/// every balance began within the limit, every balance that is read
/// after any number of batches is within the limit.
pub proof fn lemma_batch_within_limit(
    store: Store,
    market: [u8; 32],
    rules: Rules,
    domain_sep: [u8; 32],
    messages: Seq<SignedMessage>,
    account: [u8; 20],
    asset: [u8; 32],
)
    requires
        collision_free(),
        batch_spec(store, market, rules, domain_sep, messages) is Some,
        balance_fits(store, account, asset, rules.max_balance@),
    ensures
        balance_fits(
            batch_spec(store, market, rules, domain_sep, messages).unwrap().store,
            account,
            asset,
            rules.max_balance@,
        ),
{
    lemma_messages_within_limit(
        BatchState { store, totals: Seq::empty(), trades: Seq::empty() },
        market,
        rules,
        domain_sep,
        messages,
        account,
        asset,
    );
}

} // verus!
