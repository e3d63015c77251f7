use crate::bytes::be_bytes;
use crate::bytes::i32_bits;
use crate::bytes::lemma_be_bytes_injective;
use crate::bytes::lemma_be_bytes_len;
use crate::bytes::lemma_concat_injective;
use crate::bytes::lemma_i32_bits_injective;
use crate::bytes::lemma_pow256_values;
use crate::constants::NONE_ORDER_ID;
use crate::engine::best_of;
use crate::engine::best_without;
use crate::engine::cancel_spec;
use crate::engine::crosses;
use crate::engine::drop_tick_spec;
use crate::engine::empty_order_node;
use crate::engine::empty_tick_node;
use crate::engine::fill_maker_spec;
use crate::engine::lock_taker_spec;
use crate::engine::match_orders_spec;
use crate::engine::match_step_spec;
use crate::engine::match_tick_spec;
use crate::engine::place_spec;
use crate::engine::release_spec;
use crate::engine::remove_from_book_spec;
use crate::engine::Matching;
use crate::engine::NewOrder;
use crate::engine::Taker;
use crate::input::Rules;
use crate::ledger::lemma_balance_writes_keep;
use crate::ledger::lemma_links_keep;
use crate::ledger::lemma_match_tick_keeps;
use crate::state::order_key;
use crate::state::stored_order;
use crate::types::FeeTotal;
use crate::types::Order;
use crate::types::OrderStatus;
use crate::types::TradeRecord;
use crate::verify::price_of;
use crate::engine::best_with;
use crate::engine::hints_fit;
use crate::engine::place_resting_spec;
use crate::state::market_best_key;
use crate::state::order_node_key;
use crate::state::stored_order_node;
use crate::types::lemma_market_best_decoded;
use crate::types::MarketBest;
use crate::types::OrderNode;
use crate::types::TimeInForce;
use crate::engine::set_links_spec;
use crate::engine::Store;
use crate::ledger::collision_free;
use crate::ledger::keeps;
use crate::ledger::lemma_key_facts;
use crate::ledger::lemma_keys_are_record_keys;
use crate::ledger::lemma_record_keys_apart;
use crate::ledger::record_key;
use crate::ledger::Kind;
use crate::state::lookup;
use crate::state::stored_market_best;
use crate::state::stored_tick_node;
use crate::state::tick_node_key;
use crate::types::lemma_tick_node_decoded;
use crate::constants::NONE_TICK;
use crate::engine::level_exists;
use crate::types::Side;
use crate::types::TickNode;
use vstd::prelude::*;

verus! {

/// Whether tick `a` comes before tick `b` in the order of a side: bids
/// descend from the highest, asks ascend from the lowest.
pub open spec fn comes_before(side: Side, a: i32, b: i32) -> bool {
    match side {
        Side::Buy => a > b,
        Side::Sell => a < b,
    }
}

/// How far a tick is from the front of its side at most.
pub open spec fn rank(side: Side, tick: i32) -> nat {
    match side {
        Side::Buy => (i32::MAX - tick) as nat,
        Side::Sell => (tick - i32::MIN) as nat,
    }
}

/// The level at `tick`.
pub open spec fn at(levels: spec_fn(i32) -> TickNode, tick: i32) -> TickNode {
    levels(tick)
}

/// Whether the level `tick` is in order with its neighbours.
///
/// A level without orders has no neighbours. The level after a level
/// comes after it in the order of the side, exists, and points back to
/// it; the level before a level comes before it, exists, and points on to
/// it. A level that exists and has no level before it is the best of its
/// side.
pub open spec fn level_in_order(
    levels: spec_fn(i32) -> TickNode,
    best: i32,
    side: Side,
    tick: i32,
) -> bool {
    let node = at(levels, tick);
    &&& !level_exists(node) ==> node.prev_tick == NONE_TICK && node.next_tick == NONE_TICK
    &&& node.next_tick != NONE_TICK ==> {
        &&& comes_before(side, tick, node.next_tick)
        &&& level_exists(at(levels, node.next_tick))
        &&& at(levels, node.next_tick).prev_tick == tick
    }
    &&& node.prev_tick != NONE_TICK ==> {
        &&& comes_before(side, node.prev_tick, tick)
        &&& level_exists(at(levels, node.prev_tick))
        &&& at(levels, node.prev_tick).next_tick == tick
    }
    &&& level_exists(node) && node.prev_tick == NONE_TICK ==> best == tick
}

/// Whether the levels of a side are in order: the best level, if there is
/// one, exists and has no level before it, and every level is in order
/// with its neighbours. Then walking on from the best level, or from any
/// level, goes strictly down the bids and strictly up the asks, and
/// walking back undoes walking on.
pub open spec fn levels_in_order(levels: spec_fn(i32) -> TickNode, best: i32, side: Side) -> bool {
    &&& best != NONE_TICK ==> level_exists(at(levels, best)) && at(levels, best).prev_tick == NONE_TICK
    &&& forall|t: i32| t != NONE_TICK ==> #[trigger] level_in_order(levels, best, side, t)
}

/// Among levels in order, the best level leads to every level that
/// exists: a side with such a level has a best level, which is that level
/// or comes before it.
pub proof fn lemma_best_leads(
    levels: spec_fn(i32) -> TickNode,
    best: i32,
    side: Side,
    tick: i32,
)
    requires
        levels_in_order(levels, best, side),
        tick != NONE_TICK,
        level_exists(at(levels, tick)),
    ensures
        best != NONE_TICK,
        best == tick || comes_before(side, best, tick),
    decreases rank(side, tick),
{
    assert(level_in_order(levels, best, side, tick));
    let prev = at(levels, tick).prev_tick;
    if prev != NONE_TICK {
        lemma_best_leads(levels, best, side, prev);
    }
}

/// The best tick of a side after the level `tick` has come.
pub open spec fn best_after_insert(best: i32, side: Side, tick: i32) -> i32 {
    if best == NONE_TICK || comes_before(side, tick, best) {
        tick
    } else {
        best
    }
}

/// Whether the hints `prev` and `next` fit the levels for a new level `tick`.
pub open spec fn hints_fit_levels(
    levels: spec_fn(i32) -> TickNode,
    best: i32,
    side: Side,
    tick: i32,
    prev: i32,
    next: i32,
) -> bool {
    &&& if prev != NONE_TICK {
        &&& level_exists(at(levels, prev))
        &&& at(levels, prev).next_tick == next
        &&& comes_before(side, prev, tick)
    } else {
        best == next || best == NONE_TICK
    }
    &&& next != NONE_TICK ==> {
        &&& level_exists(at(levels, next))
        &&& at(levels, next).prev_tick == prev
        &&& comes_before(side, tick, next)
    }
}

/// A new level that is linked in between fitting neighbours keeps the
/// levels in order.
pub proof fn lemma_insert_level(
    before: spec_fn(i32) -> TickNode,
    after: spec_fn(i32) -> TickNode,
    best: i32,
    side: Side,
    tick: i32,
    prev: i32,
    next: i32,
)
    requires
        levels_in_order(before, best, side),
        tick != NONE_TICK,
        !level_exists(at(before, tick)),
        hints_fit_levels(before, best, side, tick, prev, next),
        level_exists(at(after, tick)),
        at(after, tick).prev_tick == prev,
        at(after, tick).next_tick == next,
        prev != NONE_TICK ==> at(after, prev).next_tick == tick && at(after, prev).prev_tick == at(before, 
            prev,
        ).prev_tick && level_exists(at(after, prev)),
        next != NONE_TICK ==> at(after, next).prev_tick == tick && at(after, next).next_tick == at(before, 
            next,
        ).next_tick && level_exists(at(after, next)),
        forall|t: i32| t != tick && t != prev && t != next ==> #[trigger] at(after, t) == at(before, t),
    ensures
        levels_in_order(after, best_after_insert(best, side, tick), side),
{
    let best1 = best_after_insert(best, side, tick);
    assert(level_in_order(before, best, side, tick));
    if prev != NONE_TICK {
        assert(level_in_order(before, best, side, prev));
        lemma_best_leads(before, best, side, prev);
    }
    if next != NONE_TICK {
        assert(level_in_order(before, best, side, next));
        lemma_best_leads(before, best, side, next);
    }
    if best != NONE_TICK {
        assert(level_in_order(before, best, side, best));
    }
    // nothing points at a level that does not exist
    assert forall|t: i32| t != NONE_TICK implies (#[trigger] at(before, t)).next_tick != tick
        && at(before, t).prev_tick != tick by {
        assert(level_in_order(before, best, side, t));
    }
    assert forall|t: i32| t != NONE_TICK implies #[trigger] level_in_order(
        after,
        best1,
        side,
        t,
    ) by {
        assert(level_in_order(before, best, side, t));
        let node = at(before, t);
        if node.next_tick != NONE_TICK {
            assert(level_in_order(before, best, side, node.next_tick));
        }
        if node.prev_tick != NONE_TICK {
            assert(level_in_order(before, best, side, node.prev_tick));
        }
        if level_exists(node) {
            lemma_best_leads(before, best, side, t);
        }
    }
}

/// A level that is taken out, with its neighbours joined, leaves the
/// levels in order.
pub proof fn lemma_drop_level(
    before: spec_fn(i32) -> TickNode,
    after: spec_fn(i32) -> TickNode,
    best: i32,
    side: Side,
    tick: i32,
)
    requires
        levels_in_order(before, best, side),
        tick != NONE_TICK,
        level_exists(at(before, tick)),
        !level_exists(at(after, tick)),
        at(after, tick).prev_tick == NONE_TICK,
        at(after, tick).next_tick == NONE_TICK,
        at(before, tick).prev_tick != NONE_TICK ==> {
            let p = at(before, tick).prev_tick;
            at(after, p).next_tick == at(before, tick).next_tick && at(after, p).prev_tick == at(before, 
                p,
            ).prev_tick && level_exists(at(after, p))
        },
        at(before, tick).next_tick != NONE_TICK ==> {
            let n = at(before, tick).next_tick;
            at(after, n).prev_tick == at(before, tick).prev_tick && at(after, n).next_tick == at(before, 
                n,
            ).next_tick && level_exists(at(after, n))
        },
        forall|t: i32|
            t != tick && t != at(before, tick).prev_tick && t != at(before, tick).next_tick
                ==> #[trigger] at(after, t) == at(before, t),
    ensures
        levels_in_order(
            after,
            if best == tick {
                at(before, tick).next_tick
            } else {
                best
            },
            side,
        ),
{
    let prev = at(before, tick).prev_tick;
    let next = at(before, tick).next_tick;
    let best1 = if best == tick {
        next
    } else {
        best
    };
    assert(level_in_order(before, best, side, tick));
    if prev != NONE_TICK {
        assert(level_in_order(before, best, side, prev));
    }
    if next != NONE_TICK {
        assert(level_in_order(before, best, side, next));
    }
    if best != NONE_TICK {
        assert(level_in_order(before, best, side, best));
    }
    assert forall|t: i32| t != NONE_TICK implies #[trigger] level_in_order(
        after,
        best1,
        side,
        t,
    ) by {
        assert(level_in_order(before, best, side, t));
        let node = at(before, t);
        if node.next_tick != NONE_TICK {
            assert(level_in_order(before, best, side, node.next_tick));
        }
        if node.prev_tick != NONE_TICK {
            assert(level_in_order(before, best, side, node.prev_tick));
        }
    }
}

/// A level that keeps its neighbours and still exists leaves the levels
/// in order, whatever becomes of its queue.
pub proof fn lemma_touch_level(
    before: spec_fn(i32) -> TickNode,
    after: spec_fn(i32) -> TickNode,
    best: i32,
    side: Side,
    tick: i32,
)
    requires
        levels_in_order(before, best, side),
        level_exists(at(before, tick)),
        level_exists(at(after, tick)),
        at(after, tick).prev_tick == at(before, tick).prev_tick,
        at(after, tick).next_tick == at(before, tick).next_tick,
        forall|t: i32| t != tick ==> #[trigger] at(after, t) == at(before, t),
    ensures
        levels_in_order(after, best, side),
{
    assert forall|t: i32| t != NONE_TICK implies #[trigger] level_in_order(after, best, side, t) by {
        assert(level_in_order(before, best, side, t));
    }
}

/// Levels that are what they were are in order as they were.
pub proof fn lemma_same_levels(
    before: spec_fn(i32) -> TickNode,
    after: spec_fn(i32) -> TickNode,
    best: i32,
    side: Side,
)
    requires
        levels_in_order(before, best, side),
        forall|t: i32| #[trigger] at(after, t) == at(before, t),
    ensures
        levels_in_order(after, best, side),
{
    assert forall|t: i32| t != NONE_TICK implies #[trigger] level_in_order(after, best, side, t) by {
        assert(level_in_order(before, best, side, t));
    }
}

/// The levels of one side of a market, as the contents have them.
pub open spec fn levels_of(store: Store, market: [u8; 32], side: Side) -> spec_fn(i32) -> TickNode {
    |t: i32| stored_tick_node(store, market@, side.code(), t).unwrap()
}

/// The best tick of one side of a market, as the contents have it.
pub open spec fn best_tick(store: Store, market: [u8; 32], side: Side) -> i32 {
    best_of(stored_market_best(store, market@).unwrap(), side)
}

/// Whether one side of a market is in order: its best ticks and all its
/// levels can be read, and the levels are in order.
pub open spec fn side_in_order(store: Store, market: [u8; 32], side: Side) -> bool {
    &&& stored_market_best(store, market@) is Some
    &&& forall|t: i32| #[trigger] stored_tick_node(store, market@, side.code(), t) is Some
    &&& levels_in_order(levels_of(store, market, side), best_tick(store, market, side), side)
}

/// Whether both sides of a market are in order.
pub open spec fn book_in_order(store: Store, market: [u8; 32]) -> bool {
    side_in_order(store, market, Side::Buy) && side_in_order(store, market, Side::Sell)
}

/// Absent collisions, two levels have one key only if they are one level.
pub proof fn lemma_level_keys_apart(
    m1: [u8; 32],
    s1: u8,
    t1: i32,
    m2: [u8; 32],
    s2: u8,
    t2: i32,
)
    requires
        collision_free(),
        tick_node_key(m1@, s1, t1) == tick_node_key(m2@, s2, t2),
    ensures
        m1@ == m2@,
        s1 == s2,
        t1 == t2,
{
    lemma_keys_are_record_keys(m1@, m1@, s1, t1);
    lemma_keys_are_record_keys(m2@, m2@, s2, t2);
    let f1 = m1@ + seq![s1] + be_bytes(i32_bits(t1), 4);
    let f2 = m2@ + seq![s2] + be_bytes(i32_bits(t2), 4);
    lemma_record_keys_apart(Kind::TickNode, f1, Kind::TickNode, f2);
    lemma_be_bytes_len(i32_bits(t1), 4);
    lemma_be_bytes_len(i32_bits(t2), 4);
    lemma_concat_injective(m1@ + seq![s1], be_bytes(i32_bits(t1), 4), m2@ + seq![s2], be_bytes(i32_bits(t2), 4));
    lemma_concat_injective(m1@, seq![s1], m2@, seq![s2]);
    assert(seq![s1][0] == seq![s2][0]);
    lemma_pow256_values();
    lemma_be_bytes_injective(i32_bits(t1), i32_bits(t2), 4);
    lemma_i32_bits_injective(t1, t2);
}

/// After a level is written, it is read as written, and, absent
/// collisions, every other level of the market is read as before.
pub proof fn lemma_level_written(
    store: Store,
    market: [u8; 32],
    side: Side,
    tick: i32,
    node: TickNode,
    other_side: Side,
    other_tick: i32,
)
    requires
        collision_free(),
    ensures
        ({
            let after = store.insert(tick_node_key(market@, side.code(), tick), node.encoded());
            &&& stored_tick_node(after, market@, side.code(), tick) == Some(node)
            &&& other_side != side || other_tick != tick ==> stored_tick_node(
                after,
                market@,
                other_side.code(),
                other_tick,
            ) == stored_tick_node(store, market@, other_side.code(), other_tick)
            &&& keeps(store, after, Kind::MarketBest)
        }),
{
    lemma_tick_node_decoded(node, node.encoded());
    lemma_key_facts();
    if tick_node_key(market@, other_side.code(), other_tick) == tick_node_key(
        market@,
        side.code(),
        tick,
    ) {
        lemma_level_keys_apart(market, other_side.code(), other_tick, market, side.code(), tick);
    }
}

/// A level as it is after its neighbours were pointed elsewhere.
pub open spec fn relinked(
    node: TickNode,
    tick: i32,
    prev: i32,
    next: i32,
    after_prev: i32,
    before_next: i32,
) -> TickNode {
    TickNode {
        prev_tick: if tick == next && next != NONE_TICK {
            before_next
        } else {
            node.prev_tick
        },
        next_tick: if tick == prev && prev != NONE_TICK {
            after_prev
        } else {
            node.next_tick
        },
        head_order_id: node.head_order_id,
        tail_order_id: node.tail_order_id,
    }
}

/// Pointing the neighbours of a level elsewhere changes the links of the
/// two neighbours, as `relinked` says, and, absent collisions, nothing
/// else of the levels and the best ticks.
pub proof fn lemma_links_set(
    store: Store,
    market: [u8; 32],
    side: Side,
    prev: i32,
    next: i32,
    after_prev: i32,
    before_next: i32,
    other_side: Side,
    tick: i32,
)
    requires
        collision_free(),
        prev != NONE_TICK && next != NONE_TICK ==> prev != next,
        forall|t: i32| #[trigger] stored_tick_node(store, market@, side.code(), t) is Some,
        set_links_spec(store, market, side, prev, next, after_prev, before_next) is Some,
    ensures
        ({
            let after = set_links_spec(
                store,
                market,
                side,
                prev,
                next,
                after_prev,
                before_next,
            ).unwrap();
            &&& stored_tick_node(after, market@, side.code(), tick) == Some(
                relinked(
                    stored_tick_node(store, market@, side.code(), tick).unwrap(),
                    tick,
                    prev,
                    next,
                    after_prev,
                    before_next,
                ),
            )
            &&& other_side != side ==> stored_tick_node(after, market@, other_side.code(), tick)
                == stored_tick_node(store, market@, other_side.code(), tick)
            &&& keeps(store, after, Kind::MarketBest)
        }),
{
    lemma_key_facts();
    assert(stored_tick_node(store, market@, side.code(), tick) is Some);
    let first = if prev != NONE_TICK {
        let p = stored_tick_node(store, market@, side.code(), prev).unwrap();
        let before_it = TickNode {
            prev_tick: p.prev_tick,
            next_tick: after_prev,
            head_order_id: p.head_order_id,
            tail_order_id: p.tail_order_id,
        };
        lemma_level_written(store, market, side, prev, before_it, side, tick);
        lemma_level_written(store, market, side, prev, before_it, other_side, tick);
        lemma_level_written(store, market, side, prev, before_it, side, next);
        store.insert(tick_node_key(market@, side.code(), prev), before_it.encoded())
    } else {
        store
    };
    if next != NONE_TICK {
        let n = stored_tick_node(first, market@, side.code(), next).unwrap();
        let n1 = TickNode {
            prev_tick: before_next,
            next_tick: n.next_tick,
            head_order_id: n.head_order_id,
            tail_order_id: n.tail_order_id,
        };
        lemma_level_written(first, market, side, next, n1, side, tick);
        lemma_level_written(first, market, side, next, n1, other_side, tick);
    }
}

/// When the tick nodes and the best ticks are as they were, the sides
/// are in order as they were.
pub proof fn lemma_order_kept(before: Store, after: Store, market: [u8; 32], side: Side)
    requires
        collision_free(),
        keeps(before, after, Kind::TickNode),
        keeps(before, after, Kind::MarketBest),
        side_in_order(before, market, side),
    ensures
        side_in_order(after, market, side),
        stored_market_best(after, market@) == stored_market_best(before, market@),
{
    lemma_key_facts();
    assert(lookup(after, record_key(Kind::MarketBest, market@)) == lookup(
        before,
        record_key(Kind::MarketBest, market@),
    ));
    assert forall|t: i32| #[trigger]
        stored_tick_node(after, market@, side.code(), t) == stored_tick_node(
            before,
            market@,
            side.code(),
            t,
        ) by {
        let k = record_key(
            Kind::TickNode,
            market@ + seq![side.code()] + be_bytes(i32_bits(t), 4),
        );
        assert(lookup(after, k) == lookup(before, k));
    }
    assert forall|t: i32| #[trigger]
        at(levels_of(after, market, side), t) == at(levels_of(before, market, side), t) by {
        assert(stored_tick_node(after, market@, side.code(), t) == stored_tick_node(
            before,
            market@,
            side.code(),
            t,
        ));
    }
    lemma_same_levels(
        levels_of(before, market, side),
        levels_of(after, market, side),
        best_tick(before, market, side),
        side,
    );
}

/// The level that a new order opens.
pub open spec fn opened_level(prev: i32, next: i32, order_id: [u8; 32]) -> TickNode {
    TickNode { prev_tick: prev, next_tick: next, head_order_id: order_id, tail_order_id: order_id }
}

/// What is read at a level after an order came to rest at a level that
/// did not exist: the new level, its two neighbours pointed at it, and
/// every other level as before.
pub proof fn lemma_opened_levels(
    store: Store,
    market: [u8; 32],
    order_id: [u8; 32],
    trader: [u8; 20],
    side: Side,
    tick: i32,
    qty: nat,
    tif: TimeInForce,
    prev: i32,
    next: i32,
    best: MarketBest,
    other_side: Side,
    t: i32,
)
    requires
        collision_free(),
        forall|u: i32| #[trigger] stored_tick_node(store, market@, side.code(), u) is Some,
        !level_exists(stored_tick_node(store, market@, side.code(), tick).unwrap()),
        place_resting_spec(store, market, order_id, trader, side, tick, qty, tif, prev, next, best)
            is Some,
    ensures
        ({
            let after = place_resting_spec(
                store,
                market,
                order_id,
                trader,
                side,
                tick,
                qty,
                tif,
                prev,
                next,
                best,
            ).unwrap();
            let was = stored_tick_node(store, market@, side.code(), t).unwrap();
            &&& hints_fit(store, market, side, tick, prev, next, best)
            &&& after.1 == best_with(best, side, tick)
            &&& stored_market_best(after.0, market@) == Some(after.1)
            &&& stored_tick_node(after.0, market@, side.code(), t) == Some(
                if t == tick {
                    opened_level(prev, next, order_id)
                } else {
                    relinked(was, t, prev, next, tick, tick)
                },
            )
            &&& other_side != side ==> stored_tick_node(after.0, market@, other_side.code(), t)
                == stored_tick_node(store, market@, other_side.code(), t)
        }),
{
    reveal(place_resting_spec);
    lemma_key_facts();
    let best1 = best_with(best, side, tick);
    let node2 = opened_level(prev, next, order_id);
    assert(hints_fit(store, market, side, tick, prev, next, best));
    lemma_links_set(store, market, side, prev, next, tick, tick, other_side, t);
    let s1 = set_links_spec(store, market, side, prev, next, tick, tick).unwrap();
    let s2 = s1.insert(market_best_key(market@), best1.encoded());
    assert(keeps(s1, s2, Kind::TickNode));
    lemma_market_best_decoded(best1, best1.encoded());
    let s3 = s2.insert(tick_node_key(market@, side.code(), tick), node2.encoded());
    lemma_level_written(s2, market, side, tick, node2, side, t);
    lemma_level_written(s2, market, side, tick, node2, other_side, t);
    let after = place_resting_spec(
        store,
        market,
        order_id,
        trader,
        side,
        tick,
        qty,
        tif,
        prev,
        next,
        best,
    ).unwrap().0;
    assert(keeps(s3, after, Kind::TickNode));
    assert(keeps(s3, after, Kind::MarketBest));
    let own = record_key(Kind::TickNode, market@ + seq![side.code()] + be_bytes(i32_bits(t), 4));
    let other = record_key(
        Kind::TickNode,
        market@ + seq![other_side.code()] + be_bytes(i32_bits(t), 4),
    );
    assert(lookup(after, own) == lookup(s3, own));
    assert(lookup(after, other) == lookup(s3, other));
    assert(lookup(s2, own) == lookup(s1, own));
    assert(lookup(s2, other) == lookup(s1, other));
    let b = record_key(Kind::MarketBest, market@);
    assert(lookup(after, b) == lookup(s3, b));
    assert(lookup(s3, b) == lookup(s2, b));
}

/// What is read at a level after an order joined the queue of a level
/// that exists: the level with the order as its tail, and every other
/// level and the best ticks as before.
pub proof fn lemma_joined_levels(
    store: Store,
    market: [u8; 32],
    order_id: [u8; 32],
    trader: [u8; 20],
    side: Side,
    tick: i32,
    qty: nat,
    tif: TimeInForce,
    prev: i32,
    next: i32,
    best: MarketBest,
    other_side: Side,
    t: i32,
)
    requires
        collision_free(),
        forall|u: i32| #[trigger] stored_tick_node(store, market@, side.code(), u) is Some,
        level_exists(stored_tick_node(store, market@, side.code(), tick).unwrap()),
        place_resting_spec(store, market, order_id, trader, side, tick, qty, tif, prev, next, best)
            is Some,
    ensures
        ({
            let after = place_resting_spec(
                store,
                market,
                order_id,
                trader,
                side,
                tick,
                qty,
                tif,
                prev,
                next,
                best,
            ).unwrap();
            let level = stored_tick_node(store, market@, side.code(), tick).unwrap();
            &&& after.1 == best
            &&& stored_market_best(after.0, market@) == stored_market_best(store, market@)
            &&& stored_tick_node(after.0, market@, side.code(), tick) == Some(
                TickNode {
                    prev_tick: level.prev_tick,
                    next_tick: level.next_tick,
                    head_order_id: level.head_order_id,
                    tail_order_id: order_id,
                },
            )
            &&& other_side != side || t != tick ==> stored_tick_node(
                after.0,
                market@,
                other_side.code(),
                t,
            ) == stored_tick_node(store, market@, other_side.code(), t)
        }),
{
    reveal(place_resting_spec);
    lemma_key_facts();
    let level = stored_tick_node(store, market@, side.code(), tick).unwrap();
    let node2 = TickNode {
        prev_tick: level.prev_tick,
        next_tick: level.next_tick,
        head_order_id: level.head_order_id,
        tail_order_id: order_id,
    };
    let tail_id = level.tail_order_id;
    let s1 = if tail_id@ != NONE_ORDER_ID@ {
        store.insert(
            order_node_key(tail_id@),
            OrderNode {
                prev_order_id: stored_order_node(store, tail_id@).unwrap().prev_order_id,
                next_order_id: order_id,
            }.encoded(),
        )
    } else {
        store
    };
    assert(keeps(store, s1, Kind::TickNode));
    assert(keeps(store, s1, Kind::MarketBest));
    let s2 = s1.insert(tick_node_key(market@, side.code(), tick), node2.encoded());
    lemma_level_written(s1, market, side, tick, node2, side, t);
    lemma_level_written(s1, market, side, tick, node2, other_side, t);
    let after = place_resting_spec(
        store,
        market,
        order_id,
        trader,
        side,
        tick,
        qty,
        tif,
        prev,
        next,
        best,
    ).unwrap().0;
    assert(keeps(s2, after, Kind::TickNode));
    assert(keeps(s2, after, Kind::MarketBest));
    let own = record_key(Kind::TickNode, market@ + seq![side.code()] + be_bytes(i32_bits(t), 4));
    let other = record_key(
        Kind::TickNode,
        market@ + seq![other_side.code()] + be_bytes(i32_bits(t), 4),
    );
    let here = record_key(
        Kind::TickNode,
        market@ + seq![side.code()] + be_bytes(i32_bits(tick), 4),
    );
    assert(lookup(after, own) == lookup(s2, own));
    assert(lookup(after, other) == lookup(s2, other));
    assert(lookup(after, here) == lookup(s2, here));
    assert(lookup(s1, own) == lookup(store, own));
    assert(lookup(s1, other) == lookup(store, other));
    let b = record_key(Kind::MarketBest, market@);
    assert(lookup(after, b) == lookup(s2, b));
    assert(lookup(s2, b) == lookup(s1, b));
    assert(lookup(s1, b) == lookup(store, b));
}

/// An order that comes to rest keeps both sides of the market in order.
///
/// Absent collisions, for an order with an id other than the one that
/// stands for "no order", at a tick other than the one that stands for "no
/// tick", and best ticks as the contents have them: when both sides were
/// in order, they are in order afterwards, and the best ticks that are
/// handed back are the ones that the contents have.
pub proof fn lemma_rest_keeps_order(
    store: Store,
    market: [u8; 32],
    order_id: [u8; 32],
    trader: [u8; 20],
    side: Side,
    tick: i32,
    qty: nat,
    tif: TimeInForce,
    prev: i32,
    next: i32,
    best: MarketBest,
)
    requires
        collision_free(),
        book_in_order(store, market),
        stored_market_best(store, market@) == Some(best),
        tick != NONE_TICK,
        order_id@ != NONE_ORDER_ID@,
        place_resting_spec(store, market, order_id, trader, side, tick, qty, tif, prev, next, best)
            is Some,
    ensures
        ({
            let after = place_resting_spec(
                store,
                market,
                order_id,
                trader,
                side,
                tick,
                qty,
                tif,
                prev,
                next,
                best,
            ).unwrap();
            &&& book_in_order(after.0, market)
            &&& stored_market_best(after.0, market@) == Some(after.1)
        }),
{
    let done = place_resting_spec(
        store,
        market,
        order_id,
        trader,
        side,
        tick,
        qty,
        tif,
        prev,
        next,
        best,
    ).unwrap();
    let after = done.0;
    let other = side.other();
    let before_own = levels_of(store, market, side);
    let after_own = levels_of(after, market, side);
    let before_other = levels_of(store, market, other);
    let after_other = levels_of(after, market, other);
    assert(side_in_order(store, market, side) && side_in_order(store, market, other));
    let level = stored_tick_node(store, market@, side.code(), tick).unwrap();
    if level_exists(level) {
        assert forall|t: i32| #[trigger]
            stored_tick_node(after, market@, side.code(), t) is Some && (t != tick ==> at(
                after_own,
                t,
            ) == at(before_own, t)) by {
            lemma_joined_levels(
                store,
                market,
                order_id,
                trader,
                side,
                tick,
                qty,
                tif,
                prev,
                next,
                best,
                side,
                t,
            );
        }
        assert forall|t: i32| #[trigger]
            stored_tick_node(after, market@, other.code(), t) is Some && at(after_other, t) == at(
                before_other,
                t,
            ) by {
            lemma_joined_levels(
                store,
                market,
                order_id,
                trader,
                side,
                tick,
                qty,
                tif,
                prev,
                next,
                best,
                other,
                t,
            );
        }
        lemma_joined_levels(
            store,
            market,
            order_id,
            trader,
            side,
            tick,
            qty,
            tif,
            prev,
            next,
            best,
            side,
            tick,
        );
        lemma_touch_level(before_own, after_own, best_tick(store, market, side), side, tick);
        lemma_same_levels(before_other, after_other, best_tick(store, market, other), other);
    } else {
        assert forall|t: i32| #[trigger]
            stored_tick_node(after, market@, side.code(), t) is Some && at(after_own, t) == (if t
                == tick {
                opened_level(prev, next, order_id)
            } else {
                relinked(at(before_own, t), t, prev, next, tick, tick)
            }) by {
            lemma_opened_levels(
                store,
                market,
                order_id,
                trader,
                side,
                tick,
                qty,
                tif,
                prev,
                next,
                best,
                side,
                t,
            );
        }
        assert forall|t: i32| #[trigger]
            stored_tick_node(after, market@, other.code(), t) is Some && at(after_other, t) == at(
                before_other,
                t,
            ) by {
            lemma_opened_levels(
                store,
                market,
                order_id,
                trader,
                side,
                tick,
                qty,
                tif,
                prev,
                next,
                best,
                other,
                t,
            );
        }
        lemma_opened_levels(
            store,
            market,
            order_id,
            trader,
            side,
            tick,
            qty,
            tif,
            prev,
            next,
            best,
            side,
            tick,
        );
        assert(hints_fit_levels(before_own, best_of(best, side), side, tick, prev, next));
        assert(at(before_own, tick) == level);
        lemma_insert_level(
            before_own,
            after_own,
            best_of(best, side),
            side,
            tick,
            prev,
            next,
        );
        assert(best_of(done.1, side) == best_after_insert(best_of(best, side), side, tick));
        assert(best_of(done.1, other) == best_of(best, other));
        lemma_same_levels(before_other, after_other, best_of(best, other), other);
    }
}

/// What is read at a level after a level was taken out of its list: the
/// level empty, its two neighbours joined, and every other level as
/// before; and the best ticks moved on if the level was the best.
pub proof fn lemma_dropped_levels(
    store: Store,
    market: [u8; 32],
    side: Side,
    tick: i32,
    node: TickNode,
    best: MarketBest,
    other_side: Side,
    t: i32,
)
    requires
        collision_free(),
        forall|u: i32| #[trigger] stored_tick_node(store, market@, side.code(), u) is Some,
        node.prev_tick != NONE_TICK && node.next_tick != NONE_TICK ==> node.prev_tick
            != node.next_tick,
        drop_tick_spec(store, market, side, tick, node, best) is Some,
    ensures
        ({
            let after = drop_tick_spec(store, market, side, tick, node, best).unwrap();
            let was = stored_tick_node(store, market@, side.code(), t).unwrap();
            &&& after.1 == best_without(best, side, tick, node.next_tick)
            &&& stored_market_best(after.0, market@) == Some(after.1)
            &&& stored_tick_node(after.0, market@, side.code(), t) == Some(
                if t == tick {
                    empty_tick_node()
                } else {
                    relinked(
                        was,
                        t,
                        node.prev_tick,
                        node.next_tick,
                        node.next_tick,
                        node.prev_tick,
                    )
                },
            )
            &&& other_side != side ==> stored_tick_node(after.0, market@, other_side.code(), t)
                == stored_tick_node(store, market@, other_side.code(), t)
        }),
{
    lemma_key_facts();
    let best1 = best_without(best, side, tick, node.next_tick);
    lemma_links_set(
        store,
        market,
        side,
        node.prev_tick,
        node.next_tick,
        node.next_tick,
        node.prev_tick,
        other_side,
        t,
    );
    let s1 = set_links_spec(
        store,
        market,
        side,
        node.prev_tick,
        node.next_tick,
        node.next_tick,
        node.prev_tick,
    ).unwrap();
    let s2 = s1.insert(tick_node_key(market@, side.code(), tick), empty_tick_node().encoded());
    lemma_level_written(s1, market, side, tick, empty_tick_node(), side, t);
    lemma_level_written(s1, market, side, tick, empty_tick_node(), other_side, t);
    let after = s2.insert(market_best_key(market@), best1.encoded());
    assert(keeps(s2, after, Kind::TickNode));
    lemma_market_best_decoded(best1, best1.encoded());
    let own = record_key(Kind::TickNode, market@ + seq![side.code()] + be_bytes(i32_bits(t), 4));
    let other = record_key(
        Kind::TickNode,
        market@ + seq![other_side.code()] + be_bytes(i32_bits(t), 4),
    );
    assert(lookup(after, own) == lookup(s2, own));
    assert(lookup(after, other) == lookup(s2, other));
}

/// Taking an existing level out of its list keeps both sides of the
/// market in order.
///
/// Absent collisions, for a level that exists, with the links that the
/// contents have for it, and best ticks as the contents have them: when
/// both sides were in order, they are in order afterwards, and the best
/// ticks that are handed back are the ones that the contents have.
pub proof fn lemma_drop_keeps_order(
    store: Store,
    market: [u8; 32],
    side: Side,
    tick: i32,
    node: TickNode,
    best: MarketBest,
)
    requires
        collision_free(),
        book_in_order(store, market),
        stored_market_best(store, market@) == Some(best),
        tick != NONE_TICK,
        level_exists(stored_tick_node(store, market@, side.code(), tick).unwrap()),
        node.prev_tick == stored_tick_node(store, market@, side.code(), tick).unwrap().prev_tick,
        node.next_tick == stored_tick_node(store, market@, side.code(), tick).unwrap().next_tick,
        drop_tick_spec(store, market, side, tick, node, best) is Some,
    ensures
        ({
            let after = drop_tick_spec(store, market, side, tick, node, best).unwrap();
            &&& book_in_order(after.0, market)
            &&& stored_market_best(after.0, market@) == Some(after.1)
        }),
{
    let done = drop_tick_spec(store, market, side, tick, node, best).unwrap();
    let after = done.0;
    let other = side.other();
    let before_own = levels_of(store, market, side);
    let after_own = levels_of(after, market, side);
    let before_other = levels_of(store, market, other);
    let after_other = levels_of(after, market, other);
    assert(side_in_order(store, market, side) && side_in_order(store, market, other));
    assert(level_in_order(before_own, best_of(best, side), side, tick));
    assert(at(before_own, tick).prev_tick == node.prev_tick);
    assert forall|t: i32| #[trigger]
        stored_tick_node(after, market@, side.code(), t) is Some && at(after_own, t) == (if t
            == tick {
            empty_tick_node()
        } else {
            relinked(
                at(before_own, t),
                t,
                node.prev_tick,
                node.next_tick,
                node.next_tick,
                node.prev_tick,
            )
        }) by {
        lemma_dropped_levels(store, market, side, tick, node, best, side, t);
    }
    assert forall|t: i32| #[trigger]
        stored_tick_node(after, market@, other.code(), t) is Some && at(after_other, t) == at(
            before_other,
            t,
        ) by {
        lemma_dropped_levels(store, market, side, tick, node, best, other, t);
    }
    lemma_dropped_levels(store, market, side, tick, node, best, side, tick);
    if node.prev_tick != NONE_TICK {
        assert(level_in_order(before_own, best_of(best, side), side, node.prev_tick));
    }
    if node.next_tick != NONE_TICK {
        assert(level_in_order(before_own, best_of(best, side), side, node.next_tick));
    }
    lemma_drop_level(before_own, after_own, best_of(best, side), side, tick);
    assert(best_of(done.1, other) == best_of(best, other));
    lemma_same_levels(before_other, after_other, best_of(best, other), other);
}

/// Storing an existing level back with the links that it had keeps both
/// sides of the market in order.
pub proof fn lemma_store_back_keeps_order(
    store: Store,
    market: [u8; 32],
    side: Side,
    tick: i32,
    node: TickNode,
)
    requires
        collision_free(),
        book_in_order(store, market),
        level_exists(stored_tick_node(store, market@, side.code(), tick).unwrap()),
        level_exists(node),
        node.prev_tick == stored_tick_node(store, market@, side.code(), tick).unwrap().prev_tick,
        node.next_tick == stored_tick_node(store, market@, side.code(), tick).unwrap().next_tick,
    ensures
        book_in_order(
            store.insert(tick_node_key(market@, side.code(), tick), node.encoded()),
            market,
        ),
        stored_market_best(
            store.insert(tick_node_key(market@, side.code(), tick), node.encoded()),
            market@,
        ) == stored_market_best(store, market@),
{
    let after = store.insert(tick_node_key(market@, side.code(), tick), node.encoded());
    let other = side.other();
    lemma_key_facts();
    lemma_level_written(store, market, side, tick, node, side, tick);
    assert(lookup(after, record_key(Kind::MarketBest, market@)) == lookup(
        store,
        record_key(Kind::MarketBest, market@),
    ));
    assert(side_in_order(store, market, side) && side_in_order(store, market, other));
    assert forall|t: i32| #[trigger]
        stored_tick_node(after, market@, side.code(), t) is Some && (t != tick ==> at(
            levels_of(after, market, side),
            t,
        ) == at(levels_of(store, market, side), t)) by {
        lemma_level_written(store, market, side, tick, node, side, t);
    }
    assert forall|t: i32| #[trigger]
        stored_tick_node(after, market@, other.code(), t) is Some && at(
            levels_of(after, market, other),
            t,
        ) == at(levels_of(store, market, other), t) by {
        lemma_level_written(store, market, side, tick, node, other, t);
    }
    lemma_touch_level(
        levels_of(store, market, side),
        levels_of(after, market, side),
        best_tick(store, market, side),
        side,
        tick,
    );
    lemma_same_levels(
        levels_of(store, market, other),
        levels_of(after, market, other),
        best_tick(store, market, other),
        other,
    );
}

/// The matching at a level leaves the links of the level and the best
/// ticks as they are.
pub proof fn lemma_match_tick_links(
    m: Matching,
    node: TickNode,
    taker: Taker,
    rules: Rules,
    tick_price: nat,
)
    requires
        match_tick_spec(m, node, taker, rules, tick_price) is Some,
    ensures
        ({
            let after = match_tick_spec(m, node, taker, rules, tick_price).unwrap();
            &&& after.1.prev_tick == node.prev_tick
            &&& after.1.next_tick == node.next_tick
            &&& after.0.best == m.best
        }),
    decreases rules.max_matches_per_order - m.matches,
{
    if node.head_order_id@ == NONE_ORDER_ID@ || m.remaining == 0 {
    } else {
        reveal(fill_maker_spec);
        let f = fill_maker_spec(m.store, taker, rules, tick_price, node, m.remaining, m.totals).unwrap();
        assert(f.node.prev_tick == node.prev_tick && f.node.next_tick == node.next_tick);
        lemma_match_tick_links(
            Matching {
                store: f.store,
                remaining: f.remaining,
                matches: m.matches + 1,
                best: m.best,
                totals: f.totals,
                trades: m.trades.push(f.trade),
            },
            f.node,
            taker,
            rules,
            tick_price,
        );
    }
}

/// A step of the walk keeps both sides of the market in order, and the
/// best ticks in hand are the ones that the contents have.
pub proof fn lemma_match_step_keeps_order(m: Matching, taker: Taker, rules: Rules)
    requires
        collision_free(),
        book_in_order(m.store, taker.market_id),
        stored_market_best(m.store, taker.market_id@) == Some(m.best),
        match_step_spec(m, taker, rules) is Some,
    ensures
        ({
            let after = match_step_spec(m, taker, rules).unwrap().0;
            &&& book_in_order(after.store, taker.market_id)
            &&& stored_market_best(after.store, taker.market_id@) == Some(after.best)
        }),
{
    reveal(match_step_spec);
    let market = taker.market_id;
    let book = taker.side.other();
    let current = best_of(m.best, book);
    if current != NONE_TICK {
        let tick_price = price_of(current, rules.tick_size@).unwrap();
        if crosses(taker.side, tick_price, taker.limit_price@) && m.remaining != 0 {
            let node = stored_tick_node(m.store, market@, book.code(), current).unwrap();
            assert(side_in_order(m.store, market, book));
            assert(at(levels_of(m.store, market, book), current) == node);
            let matched = match_tick_spec(m, node, taker, rules, tick_price).unwrap();
            let m1 = matched.0;
            let node1 = matched.1;
            lemma_match_tick_links(m, node, taker, rules, tick_price);
            lemma_match_tick_keeps(m, node, taker, rules, tick_price, Kind::TickNode);
            lemma_match_tick_keeps(m, node, taker, rules, tick_price, Kind::MarketBest);
            lemma_order_kept(m.store, m1.store, market, Side::Buy);
            lemma_order_kept(m.store, m1.store, market, Side::Sell);
            assert(stored_tick_node(m1.store, market@, book.code(), current) == Some(node)) by {
                lemma_key_facts();
                let k = record_key(
                    Kind::TickNode,
                    market@ + seq![book.code()] + be_bytes(i32_bits(current), 4),
                );
                assert(lookup(m1.store, k) == lookup(m.store, k));
            }
            if node1.head_order_id@ == NONE_ORDER_ID@ {
                lemma_drop_keeps_order(m1.store, market, book, current, node1, m1.best);
            } else {
                lemma_store_back_keeps_order(m1.store, market, book, current, node1);
            }
        }
    }
}

/// The walk over the levels keeps both sides of the market in order, and
/// the best ticks in hand are the ones that the contents have.
pub proof fn lemma_match_orders_keeps_order(m: Matching, taker: Taker, rules: Rules, fuel: nat)
    requires
        collision_free(),
        book_in_order(m.store, taker.market_id),
        stored_market_best(m.store, taker.market_id@) == Some(m.best),
        match_orders_spec(m, taker, rules, fuel) is Some,
    ensures
        ({
            let after = match_orders_spec(m, taker, rules, fuel).unwrap();
            &&& book_in_order(after.store, taker.market_id)
            &&& stored_market_best(after.store, taker.market_id@) == Some(after.best)
        }),
    decreases fuel,
{
    lemma_match_step_keeps_order(m, taker, rules);
    let stepped = match_step_spec(m, taker, rules).unwrap();
    if stepped.1 {
        lemma_match_orders_keeps_order(stepped.0, taker, rules, (fuel - 1) as nat);
    }
}

/// Placing an order keeps both sides of the market in order.
///
/// Absent collisions: when on each side the levels were in order
/// before the placement, they are in order after it. Walking on from the
/// best level then goes strictly down the bids and strictly up the asks,
/// and walking back undoes walking on.
pub proof fn lemma_place_keeps_order(
    store: Store,
    market: [u8; 32],
    rules: Rules,
    order: NewOrder,
    totals: Seq<FeeTotal>,
    trades: Seq<TradeRecord>,
)
    requires
        collision_free(),
        book_in_order(store, market),
        place_spec(store, market, rules, order, totals, trades) is Some,
    ensures
        book_in_order(place_spec(store, market, rules, order, totals, trades).unwrap().store, market),
{
    reveal(place_spec);
    lemma_key_facts();
    let qty = order.qty_base@;
    let price = price_of(order.tick_index, rules.tick_size@).unwrap();
    let locked = lock_taker_spec(store, order.trader, order.side, price, qty, rules).unwrap();
    lemma_balance_writes_keep(
        store,
        order.trader,
        order.trader,
        order.side,
        qty,
        price,
        rules,
        arbitrary(),
        Kind::TickNode,
    );
    lemma_balance_writes_keep(
        store,
        order.trader,
        order.trader,
        order.side,
        qty,
        price,
        rules,
        arbitrary(),
        Kind::MarketBest,
    );
    lemma_order_kept(store, locked, market, Side::Buy);
    lemma_order_kept(store, locked, market, Side::Sell);
    let best = stored_market_best(locked, market@).unwrap();
    let start = Matching { store: locked, remaining: qty, matches: 0, best, totals, trades };
    let taker = Taker {
        market_id: market,
        trader: order.trader,
        order_id: order.order_id,
        side: order.side,
        limit_price: crate::book::u256(price),
    };
    lemma_match_orders_keeps_order(start, taker, rules, u64::MAX as nat);
    let m = match_orders_spec(start, taker, rules, u64::MAX as nat).unwrap();
    let after = place_spec(store, market, rules, order, totals, trades).unwrap();
    let released = if order.tif == TimeInForce::Ioc && m.remaining != 0 {
        release_spec(m.store, order.trader, order.side, m.remaining, price, rules).unwrap()
    } else {
        m.store
    };
    lemma_balance_writes_keep(
        m.store,
        order.trader,
        order.trader,
        order.side,
        m.remaining,
        price,
        rules,
        arbitrary(),
        Kind::TickNode,
    );
    lemma_balance_writes_keep(
        m.store,
        order.trader,
        order.trader,
        order.side,
        m.remaining,
        price,
        rules,
        arbitrary(),
        Kind::MarketBest,
    );
    assert(keeps(m.store, released, Kind::TickNode));
    assert(keeps(m.store, released, Kind::MarketBest));
    if order.tif == TimeInForce::Gtc && m.remaining != 0 {
        lemma_rest_keeps_order(
            m.store,
            market,
            order.order_id,
            order.trader,
            order.side,
            order.tick_index,
            m.remaining,
            order.tif,
            order.prev_tick_hint,
            order.next_tick_hint,
            m.best,
        );
    } else {
        assert(keeps(released, after.store, Kind::TickNode));
        assert(keeps(released, after.store, Kind::MarketBest));
        assert(keeps(m.store, after.store, Kind::TickNode));
        assert(keeps(m.store, after.store, Kind::MarketBest));
        lemma_order_kept(m.store, after.store, market, Side::Buy);
        lemma_order_kept(m.store, after.store, market, Side::Sell);
    }
}

/// Taking an order out of the queue of an existing level keeps both sides
/// of the market in order.
pub proof fn lemma_remove_keeps_order(
    store: Store,
    market: [u8; 32],
    side: Side,
    tick: i32,
    order_id: [u8; 32],
)
    requires
        collision_free(),
        book_in_order(store, market),
        tick != NONE_TICK,
        level_exists(stored_tick_node(store, market@, side.code(), tick).unwrap()),
        remove_from_book_spec(store, market, side, tick, order_id) is Some,
    ensures
        book_in_order(remove_from_book_spec(store, market, side, tick, order_id).unwrap(), market),
{
    reveal(remove_from_book_spec);
    lemma_key_facts();
    let node = stored_tick_node(store, market@, side.code(), tick).unwrap();
    let links = stored_order_node(store, order_id@).unwrap();
    let prev_id = links.prev_order_id;
    let next_id = links.next_order_id;
    let s1 = if prev_id@ != NONE_ORDER_ID@ {
        store.insert(
            order_node_key(prev_id@),
            OrderNode {
                prev_order_id: stored_order_node(store, prev_id@).unwrap().prev_order_id,
                next_order_id: next_id,
            }.encoded(),
        )
    } else {
        store
    };
    let n1 = if prev_id@ != NONE_ORDER_ID@ {
        node
    } else {
        TickNode {
            prev_tick: node.prev_tick,
            next_tick: node.next_tick,
            head_order_id: next_id,
            tail_order_id: node.tail_order_id,
        }
    };
    let s2 = if next_id@ != NONE_ORDER_ID@ {
        s1.insert(
            order_node_key(next_id@),
            OrderNode {
                prev_order_id: prev_id,
                next_order_id: stored_order_node(s1, next_id@).unwrap().next_order_id,
            }.encoded(),
        )
    } else {
        s1
    };
    let n2 = if next_id@ != NONE_ORDER_ID@ {
        n1
    } else {
        TickNode {
            prev_tick: n1.prev_tick,
            next_tick: n1.next_tick,
            head_order_id: n1.head_order_id,
            tail_order_id: prev_id,
        }
    };
    let s3 = s2.insert(order_node_key(order_id@), empty_order_node().encoded());
    assert(keeps(store, s1, Kind::TickNode) && keeps(store, s1, Kind::MarketBest));
    assert(keeps(s1, s2, Kind::TickNode) && keeps(s1, s2, Kind::MarketBest));
    assert(keeps(s2, s3, Kind::TickNode) && keeps(s2, s3, Kind::MarketBest));
    assert(keeps(store, s3, Kind::TickNode) && keeps(store, s3, Kind::MarketBest));
    lemma_order_kept(store, s3, market, Side::Buy);
    lemma_order_kept(store, s3, market, Side::Sell);
    let k = record_key(Kind::TickNode, market@ + seq![side.code()] + be_bytes(i32_bits(tick), 4));
    assert(lookup(s3, k) == lookup(store, k));
    assert(stored_tick_node(s3, market@, side.code(), tick) == Some(node));
    if n2.head_order_id@ == NONE_ORDER_ID@ {
        let s4 = set_links_spec(
            s3,
            market,
            side,
            n2.prev_tick,
            n2.next_tick,
            n2.next_tick,
            n2.prev_tick,
        ).unwrap();
        lemma_links_keep(
            s3,
            market,
            side,
            n2.prev_tick,
            n2.next_tick,
            n2.next_tick,
            n2.prev_tick,
            Kind::MarketBest,
        );
        let b = record_key(Kind::MarketBest, market@);
        assert(lookup(s4, b) == lookup(s3, b));
        let best = stored_market_best(s3, market@).unwrap();
        assert(stored_market_best(s4, market@) == Some(best));
        assert(drop_tick_spec(s3, market, side, tick, n2, best) is Some);
        assert(remove_from_book_spec(store, market, side, tick, order_id).unwrap()
            == drop_tick_spec(s3, market, side, tick, n2, best).unwrap().0);
        lemma_drop_keeps_order(s3, market, side, tick, n2, best);
    } else {
        lemma_store_back_keeps_order(s3, market, side, tick, n2);
    }
}

/// Cancelling an order that rests at an existing level keeps both sides
/// of the market in order.
pub proof fn lemma_cancel_keeps_order(
    store: Store,
    market: [u8; 32],
    rules: Rules,
    trader: [u8; 20],
    order_id: [u8; 32],
)
    requires
        collision_free(),
        book_in_order(store, market),
        cancel_spec(store, market, rules, trader, order_id) is Some,
        ({
            let order = stored_order(store, order_id@).unwrap().unwrap();
            level_exists(stored_tick_node(store, market@, order.side.code(), order.tick).unwrap())
        }),
    ensures
        book_in_order(cancel_spec(store, market, rules, trader, order_id).unwrap(), market),
{
    reveal(cancel_spec);
    lemma_key_facts();
    let order = stored_order(store, order_id@).unwrap().unwrap();
    let price = price_of(order.tick, rules.tick_size@).unwrap();
    let released = release_spec(store, trader, order.side, order.qty_remaining@, price, rules).unwrap();
    lemma_balance_writes_keep(
        store,
        trader,
        trader,
        order.side,
        order.qty_remaining@,
        price,
        rules,
        arbitrary(),
        Kind::TickNode,
    );
    lemma_balance_writes_keep(
        store,
        trader,
        trader,
        order.side,
        order.qty_remaining@,
        price,
        rules,
        arbitrary(),
        Kind::MarketBest,
    );
    let closed = released.insert(
        order_key(order_id@),
        Order {
            owner: order.owner,
            side: order.side,
            tick: order.tick,
            qty_remaining: crate::book::u256(0),
            tif: order.tif,
            status: OrderStatus::Canceled,
        }.encoded(),
    );
    assert(keeps(released, closed, Kind::TickNode) && keeps(released, closed, Kind::MarketBest));
    assert(keeps(store, closed, Kind::TickNode) && keeps(store, closed, Kind::MarketBest));
    lemma_order_kept(store, closed, market, Side::Buy);
    lemma_order_kept(store, closed, market, Side::Sell);
    let k = record_key(
        Kind::TickNode,
        market@ + seq![order.side.code()] + be_bytes(i32_bits(order.tick), 4),
    );
    assert(lookup(closed, k) == lookup(store, k));
    lemma_remove_keeps_order(closed, market, order.side, order.tick, order_id);
}

} // verus!
