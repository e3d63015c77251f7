use crate::book::fill_terms_spec;
use crate::bytes::be_bytes;
use crate::bytes::i32_bits;
use crate::constants::NONE_ORDER_ID;
use crate::constants::NONE_TICK;
use crate::engine::best_of;
use crate::engine::cancel_spec;
use crate::engine::closed_order;
use crate::engine::crosses;
use crate::engine::drop_tick_spec;
use crate::engine::empty_order_node;
use crate::engine::empty_tick_node;
use crate::engine::level_exists;
use crate::engine::lock_taker_spec;
use crate::engine::match_orders_spec;
use crate::engine::match_step_spec;
use crate::engine::collect_fee_spec;
use crate::engine::fill_maker_spec;
use crate::engine::settle_fill_spec;
use crate::engine::match_tick_spec;
use crate::engine::place_resting_spec;
use crate::engine::place_spec;
use crate::engine::release_spec;
use crate::engine::remove_from_book_spec;
use crate::engine::set_links_spec;
use crate::engine::NewOrder;
use crate::engine::Matching;
use crate::engine::Store;
use crate::engine::Taker;
use crate::input::Rules;
use crate::ledger::collision_free;
use crate::ledger::keeps;
use crate::ledger::lemma_balance_writes_keep;
use crate::ledger::lemma_fee_write_keeps;
use crate::ledger::lemma_drop_tick_keeps;
use crate::ledger::lemma_fill_maker_keeps;
use crate::ledger::lemma_match_tick_keeps;
use crate::ledger::lemma_pop_head_keeps;
use crate::ledger::lemma_key_facts;
use crate::ledger::lemma_links_keep;
use crate::ledger::record_key;
use crate::ledger::Kind;
use crate::levels::at;
use crate::levels::best_tick;
use crate::levels::book_in_order;
use crate::levels::lemma_dropped_levels;
use crate::levels::lemma_joined_levels;
use crate::levels::lemma_level_written;
use crate::levels::lemma_match_orders_keeps_order;
use crate::levels::lemma_opened_levels;
use crate::levels::lemma_match_step_keeps_order;
use crate::levels::lemma_match_tick_links;
use crate::levels::lemma_order_kept;
use crate::levels::level_in_order;
use crate::levels::levels_of;
use crate::levels::side_in_order;
use crate::queues::entry;
use crate::queues::lemma_fill_keeps_queue;
use crate::queues::lemma_queue_kept;
use crate::queues::lemma_remove_keeps_queue;
use crate::queues::lemma_rest_joins_queue;
use crate::queues::level_queue;
use crate::queues::link;
use crate::queues::links_of;
use crate::queues::no_order;
use crate::state::lookup;
use crate::state::order_key;
use crate::state::order_node_key;
use crate::state::stored_market_best;
use crate::state::stored_order;
use crate::state::stored_order_node;
use crate::state::stored_tick_node;
use crate::types::lemma_order_decoded;
use crate::types::FeeTotal;
use crate::types::MarketBest;
use crate::types::Order;
use crate::types::OrderNode;
use crate::types::OrderStatus;
use crate::types::Side;
use crate::types::TickNode;
use crate::types::TimeInForce;
use crate::types::TradeRecord;
use crate::verify::price_of;
use vstd::prelude::*;

verus! {

/// The queue of the level `tick` of `side` among `queues`: the ids of
/// the orders that rest there, first come first.
pub open spec fn queue_of(queues: spec_fn(Side, i32) -> Seq<Seq<u8>>, side: Side, tick: i32) -> Seq<
    Seq<u8>,
> {
    queues(side, tick)
}

/// `queues` with `queue` as the queue of the level `tick` of `side`.
pub open spec fn with_queue(
    queues: spec_fn(Side, i32) -> Seq<Seq<u8>>,
    side: Side,
    tick: i32,
    queue: Seq<Seq<u8>>,
) -> spec_fn(Side, i32) -> Seq<Seq<u8>> {
    |s: Side, t: i32|
        if s == side && t == tick {
            queue
        } else {
            queues(s, t)
        }
}

/// Whether the order `id` is in none of the queues.
pub open spec fn absent(queues: spec_fn(Side, i32) -> Seq<Seq<u8>>, id: Seq<u8>) -> bool {
    forall|side: Side, tick: i32, i: int|
        0 <= i < queue_of(queues, side, tick).len() ==> #[trigger] queue_of(queues, side, tick)[i]
            != id
}

/// Whether `id` is stored as an order of the level `tick` of `side`.
pub open spec fn rests_at(store: Store, id: Seq<u8>, side: Side, tick: i32) -> bool {
    match stored_order(store, id) {
        Some(Some(o)) => o.side == side && o.tick == tick,
        _ => false,
    }
}

/// Whether `queue` is the queue of the level `tick` of `side` with the
/// head and tail of `node`: it is in order, as `queue_in_order` says, and
/// each of its orders is stored as an order of this level, with queue
/// links that can be read.
pub open spec fn queue_fits(
    store: Store,
    node: TickNode,
    queue: Seq<Seq<u8>>,
    side: Side,
    tick: i32,
) -> bool {
    &&& level_queue(store, node, queue)
    &&& forall|i: int| 0 <= i < queue.len() ==> rests_at(store, #[trigger] queue[i], side, tick)
    &&& forall|i: int| 0 <= i < queue.len() ==> linked(store, #[trigger] queue[i])
}

/// Whether the queue links of the order `id` can be read.
pub open spec fn linked(store: Store, id: Seq<u8>) -> bool {
    stored_order_node(store, id) is Some
}

/// The level `tick` of `side`, as the contents have it.
pub open spec fn level_of(store: Store, market: [u8; 32], side: Side, tick: i32) -> TickNode {
    stored_tick_node(store, market@, side.code(), tick).unwrap()
}

/// Whether the queue that `queues` has for a level is the queue of that
/// level in the contents.
pub open spec fn fits_at(
    store: Store,
    market: [u8; 32],
    queues: spec_fn(Side, i32) -> Seq<Seq<u8>>,
    side: Side,
    tick: i32,
) -> bool {
    queue_fits(store, level_of(store, market, side, tick), queue_of(queues, side, tick), side, tick)
}

/// Whether the order `id`, if it is stored as an open order, is in the
/// queue of its level.
pub open spec fn listed_if_open(
    stored: Option<Option<Order>>,
    queues: spec_fn(Side, i32) -> Seq<Seq<u8>>,
    id: Seq<u8>,
) -> bool {
    match stored {
        Some(Some(o)) => o.status == OrderStatus::Open ==> queue_of(queues, o.side, o.tick).contains(
            id,
        ),
        _ => true,
    }
}

/// Whether every order that is stored as open is in the queue of its
/// level.
pub open spec fn open_listed(store: Store, queues: spec_fn(Side, i32) -> Seq<Seq<u8>>) -> bool {
    forall|id: Seq<u8>| listed_if_open(#[trigger] stored_order(store, id), queues, id)
}

/// Whether `queues` are the queues of the market: at every level the
/// head points back to no order, the tail points on to no order, walking
/// on from the head and walking back from the tail pass the same orders;
/// no order is in two queues; and every open order is in the queue of
/// its level.
pub open spec fn queues_fit(
    store: Store,
    market: [u8; 32],
    queues: spec_fn(Side, i32) -> Seq<Seq<u8>>,
) -> bool {
    &&& forall|side: Side, tick: i32| #[trigger] fits_at(store, market, queues, side, tick)
    &&& open_listed(store, queues)
}

/// Whether `queues` are the queues of the market while the level `tick`
/// of `side` is in hand as `node`, its head and tail not stored yet.
#[verifier::opaque]
pub open spec fn fits_in_hand(
    store: Store,
    market: [u8; 32],
    queues: spec_fn(Side, i32) -> Seq<Seq<u8>>,
    side: Side,
    tick: i32,
    node: TickNode,
) -> bool {
    &&& queue_fits(store, node, queue_of(queues, side, tick), side, tick)
    &&& forall|s: Side, t: i32|
        s != side || t != tick ==> #[trigger] fits_at(store, market, queues, s, t)
    &&& open_listed(store, queues)
}

/// Whether the order `id` is in `after` what it is in `before`: the
/// order and its queue links.
pub open spec fn same_order(before: Store, after: Store, id: Seq<u8>) -> bool {
    stored_order_node(after, id) == stored_order_node(before, id) && stored_order(after, id)
        == stored_order(before, id)
}

/// A queue whose orders are what they were fits as it did.
pub proof fn lemma_queue_fits_kept(
    before: Store,
    after: Store,
    node: TickNode,
    queue: Seq<Seq<u8>>,
    side: Side,
    tick: i32,
)
    requires
        queue_fits(before, node, queue, side, tick),
        forall|i: int| 0 <= i < queue.len() ==> same_order(before, after, #[trigger] queue[i]),
    ensures
        queue_fits(after, node, queue, side, tick),
{
    assert forall|i: int| 0 <= i < queue.len() implies #[trigger] link(links_of(after), queue[i])
        == link(links_of(before), queue[i]) by {
        assert(same_order(before, after, queue[i]));
    }
    lemma_queue_kept(
        links_of(before),
        links_of(after),
        node.head_order_id@,
        node.tail_order_id@,
        queue,
    );
    assert forall|i: int| 0 <= i < queue.len() implies rests_at(
        after,
        #[trigger] queue[i],
        side,
        tick,
    ) by {
        assert(same_order(before, after, queue[i]));
        assert(rests_at(before, queue[i], side, tick));
    }
}

/// Absent collisions, an order whose two records are as they were is
/// what it was.
pub proof fn lemma_same_order(before: Store, after: Store, id: Seq<u8>)
    requires
        lookup(after, order_key(id)) == lookup(before, order_key(id)),
        lookup(after, order_node_key(id)) == lookup(before, order_node_key(id)),
    ensures
        same_order(before, after, id),
{
}

/// When neither orders nor queue links are written, every order is what
/// it was.
pub proof fn lemma_orders_untouched(before: Store, after: Store, id: Seq<u8>)
    requires
        collision_free(),
        keeps(before, after, Kind::Order),
        keeps(before, after, Kind::OrderNode),
    ensures
        same_order(before, after, id),
{
    lemma_key_facts();
    assert(order_key(id) == record_key(Kind::Order, id));
    assert(order_node_key(id) == record_key(Kind::OrderNode, id));
}

/// An order is in the queue of one level only.
pub proof fn lemma_queues_apart(
    store: Store,
    n1: TickNode,
    q1: Seq<Seq<u8>>,
    s1: Side,
    t1: i32,
    i: int,
    n2: TickNode,
    q2: Seq<Seq<u8>>,
    s2: Side,
    t2: i32,
    j: int,
)
    requires
        queue_fits(store, n1, q1, s1, t1),
        queue_fits(store, n2, q2, s2, t2),
        0 <= i < q1.len(),
        0 <= j < q2.len(),
        q1[i] == q2[j],
    ensures
        s1 == s2,
        t1 == t2,
{
    assert(rests_at(store, q1[i], s1, t1));
    assert(rests_at(store, q2[j], s2, t2));
}

/// What a fill writes of the orders: the maker's order, which stays an
/// order of its level, and, where the maker leaves the queue, the queue
/// links of the maker and of the order after it. Absent collisions,
/// every other order is what it was, no level is written, and a maker
/// that is still open has not left the queue.
pub proof fn lemma_fill_touches(
    store: Store,
    taker: Taker,
    rules: Rules,
    tick_price: nat,
    node: TickNode,
    remaining: nat,
    totals: Seq<FeeTotal>,
    id: Seq<u8>,
)
    requires
        collision_free(),
        fill_maker_spec(store, taker, rules, tick_price, node, remaining, totals) is Some,
    ensures
        ({
            let f = fill_maker_spec(store, taker, rules, tick_price, node, remaining, totals).unwrap();
            let maker_id = node.head_order_id@;
            let next = link(links_of(store), maker_id).next_order_id@;
            &&& id != maker_id ==> stored_order(f.store, id) == stored_order(store, id)
            &&& id != maker_id && id != next ==> stored_order_node(f.store, id)
                == stored_order_node(store, id)
            &&& linked(store, id) ==> linked(f.store, id)
            &&& stored_order(store, maker_id) is Some
            &&& stored_order(store, maker_id).unwrap() is Some
            &&& stored_order(f.store, maker_id) is Some
            &&& stored_order(f.store, maker_id).unwrap() is Some
            &&& stored_order(f.store, maker_id).unwrap().unwrap().side == stored_order(
                store,
                maker_id,
            ).unwrap().unwrap().side
            &&& stored_order(f.store, maker_id).unwrap().unwrap().tick == stored_order(
                store,
                maker_id,
            ).unwrap().unwrap().tick
            &&& stored_order(f.store, maker_id).unwrap().unwrap().status == OrderStatus::Open
                ==> f.node == node
            &&& keeps(store, f.store, Kind::TickNode)
        }),
{
    reveal(fill_maker_spec);
    lemma_key_facts();
    lemma_fill_maker_keeps(store, taker, rules, tick_price, node, remaining, totals, Kind::TickNode);
    let maker_id = node.head_order_id;
    let maker = stored_order(store, maker_id@).unwrap().unwrap();
    let terms = fill_terms_spec(remaining, maker.qty_remaining@, tick_price, rules).unwrap();
    let settled = settle_fill_spec(store, taker.side, taker.trader, maker.owner, rules, terms).unwrap();
    lemma_balance_writes_keep(
        store,
        taker.trader,
        maker.owner,
        taker.side,
        0,
        0,
        rules,
        terms,
        Kind::Order,
    );
    lemma_balance_writes_keep(
        store,
        taker.trader,
        maker.owner,
        taker.side,
        0,
        0,
        rules,
        terms,
        Kind::OrderNode,
    );
    let collected = collect_fee_spec(settled, rules.quote_asset_id, terms.fee@).unwrap();
    lemma_fee_write_keeps(settled, rules.quote_asset_id, terms.fee@, Kind::Order);
    lemma_fee_write_keeps(settled, rules.quote_asset_id, terms.fee@, Kind::OrderNode);
    let left = (maker.qty_remaining@ - terms.fill_qty@) as nat;
    let maker1 = Order {
        owner: maker.owner,
        side: maker.side,
        tick: maker.tick,
        qty_remaining: crate::book::u256(left),
        tif: maker.tif,
        status: if left == 0 {
            OrderStatus::Filled
        } else {
            OrderStatus::Open
        },
    };
    let written = collected.insert(order_key(maker_id@), maker1.encoded());
    lemma_order_decoded(maker1, maker1.encoded());
    assert(keeps(store, collected, Kind::Order));
    assert(keeps(store, collected, Kind::OrderNode));
    assert(keeps(collected, written, Kind::OrderNode));
    lemma_pop_head_keeps(written, node, maker_id, Kind::Order);
    let f = fill_maker_spec(store, taker, rules, tick_price, node, remaining, totals).unwrap();
    assert(keeps(written, f.store, Kind::Order));
    let ko = record_key(Kind::Order, id);
    let kn = record_key(Kind::OrderNode, id);
    assert(order_key(id) == ko);
    assert(order_node_key(id) == kn);
    assert(order_key(maker_id@) == record_key(Kind::Order, maker_id@));
    assert(lookup(f.store, record_key(Kind::Order, maker_id@)) == lookup(
        written,
        record_key(Kind::Order, maker_id@),
    ));
    assert(stored_order(f.store, maker_id@) == Some(Some(maker1)));
    if id != maker_id@ {
        assert(lookup(f.store, ko) == lookup(written, ko));
        assert(lookup(written, ko) == lookup(collected, ko));
        assert(lookup(collected, ko) == lookup(store, ko));
    }
    assert(lookup(written, kn) == lookup(store, kn));
    assert(stored_order_node(written, maker_id@) == stored_order_node(store, maker_id@)) by {
        let km = record_key(Kind::OrderNode, maker_id@);
        assert(order_node_key(maker_id@) == km);
        assert(lookup(written, km) == lookup(store, km));
    }
    let next = link(links_of(store), maker_id@).next_order_id@;
    if id != maker_id@ && id != next {
        if left == 0 {
            assert(order_node_key(next) == record_key(Kind::OrderNode, next));
            assert(order_node_key(maker_id@) == record_key(Kind::OrderNode, maker_id@));
            assert(lookup(f.store, kn) == lookup(written, kn));
        }
    }
}

/// A queue of which orders have left has no order that it had not.
pub proof fn lemma_absent_after_leaving(
    queues: spec_fn(Side, i32) -> Seq<Seq<u8>>,
    side: Side,
    tick: i32,
    gone: int,
    id: Seq<u8>,
)
    requires
        0 <= gone <= queue_of(queues, side, tick).len(),
        absent(queues, id),
    ensures
        absent(with_queue(queues, side, tick, queue_of(queues, side, tick).skip(gone)), id),
{
    let q = queue_of(queues, side, tick);
    let left = with_queue(queues, side, tick, q.skip(gone));
    assert forall|s: Side, t: i32, i: int| 0 <= i < queue_of(left, s, t).len() implies #[trigger] queue_of(
        left,
        s,
        t,
    )[i] != id by {
        if s == side && t == tick {
            assert(queue_of(left, s, t)[i] == queue_of(queues, side, tick)[i + gone]);
        } else {
            assert(queue_of(left, s, t)[i] == queue_of(queues, s, t)[i]);
        }
    }
}

/// A fill keeps the queues of the market.
///
/// Absent collisions, with the level that is matched in hand and a head
/// to fill: the queue of the level is not empty; afterwards the queues
/// are those of the market, the queue of the level without its first
/// order where the head of the level has changed and as it was where it
/// has not; and an order that is in no queue is stored as it was.
pub proof fn lemma_fill_keeps_queues(
    store: Store,
    taker: Taker,
    rules: Rules,
    tick_price: nat,
    node: TickNode,
    remaining: nat,
    totals: Seq<FeeTotal>,
    market: [u8; 32],
    queues: spec_fn(Side, i32) -> Seq<Seq<u8>>,
    side: Side,
    tick: i32,
)
    requires
        collision_free(),
        fits_in_hand(store, market, queues, side, tick, node),
        node.head_order_id@ != NONE_ORDER_ID@,
        fill_maker_spec(store, taker, rules, tick_price, node, remaining, totals) is Some,
    ensures
        ({
            let f = fill_maker_spec(store, taker, rules, tick_price, node, remaining, totals).unwrap();
            let q = queue_of(queues, side, tick);
            let gone: int = if f.node.head_order_id@ == node.head_order_id@ {
                0
            } else {
                1
            };
            &&& q.len() > 0
            &&& fits_in_hand(
                f.store,
                market,
                with_queue(queues, side, tick, q.skip(gone)),
                side,
                tick,
                f.node,
            )
            &&& forall|id: Seq<u8>|
                absent(queues, id) ==> #[trigger] stored_order(f.store, id) == stored_order(
                    store,
                    id,
                )
        }),
{
    reveal(fits_in_hand);
    lemma_key_facts();
    let q = queue_of(queues, side, tick);
    assert(q.len() > 0) by {
        assert(node.head_order_id@ == entry(q, 0));
        assert(no_order() == NONE_ORDER_ID@);
    }
    lemma_fill_keeps_queue(store, taker, rules, tick_price, node, remaining, totals, q);
    let f = fill_maker_spec(store, taker, rules, tick_price, node, remaining, totals).unwrap();
    let gone: int = if f.node.head_order_id@ == node.head_order_id@ {
        0
    } else {
        1
    };
    let q1 = q.skip(gone);
    let queues1 = with_queue(queues, side, tick, q1);
    let next = link(links_of(store), q[0]).next_order_id@;
    assert(next == entry(q, 1));
    assert(q.skip(0) =~= q);
    if gone == 0 {
        if level_queue(f.store, f.node, q.skip(1)) {
            assert(f.node.head_order_id@ == entry(q.skip(1), 0));
            if q.len() > 1 {
                assert(q.skip(1)[0] == q[1]);
                assert(q[0] != q[1]);
            }
        }
    } else {
        if level_queue(f.store, f.node, q) {
            assert(f.node.head_order_id@ == entry(q, 0));
        }
    }
    assert(level_queue(f.store, f.node, q1));
    assert forall|i: int| 0 <= i < q1.len() implies rests_at(f.store, #[trigger] q1[i], side, tick) by {
        lemma_fill_touches(store, taker, rules, tick_price, node, remaining, totals, q1[i]);
        assert(q1[i] == q[i + gone]);
        assert(rests_at(store, q[i + gone], side, tick));
        assert(rests_at(store, q[0], side, tick));
    }
    assert forall|i: int| 0 <= i < q1.len() implies linked(f.store, #[trigger] q1[i]) by {
        lemma_fill_touches(store, taker, rules, tick_price, node, remaining, totals, q1[i]);
        assert(q1[i] == q[i + gone]);
        assert(linked(store, q[i + gone]));
    }
    assert(queue_of(queues1, side, tick) == q1);
    assert forall|s: Side, t: i32| s != side || t != tick implies #[trigger] fits_at(
        f.store,
        market,
        queues1,
        s,
        t,
    ) by {
        let qq = queue_of(queues, s, t);
        assert(queue_of(queues1, s, t) == qq);
        assert(fits_at(store, market, queues, s, t));
        let level = level_of(store, market, s, t);
        lemma_fill_touches(store, taker, rules, tick_price, node, remaining, totals, q[0]);
        assert(level_of(f.store, market, s, t) == level) by {
            let k = record_key(
                Kind::TickNode,
                market@ + seq![s.code()] + crate::bytes::be_bytes(crate::bytes::i32_bits(t), 4),
            );
            assert(lookup(f.store, k) == lookup(store, k));
        }
        assert forall|i: int| 0 <= i < qq.len() implies same_order(store, f.store, #[trigger] qq[i]) by {
            lemma_fill_touches(store, taker, rules, tick_price, node, remaining, totals, qq[i]);
            if qq[i] == q[0] {
                lemma_queues_apart(store, level, qq, s, t, i, node, q, side, tick, 0);
            }
            if qq[i] == next {
                if q.len() > 1 {
                    lemma_queues_apart(store, level, qq, s, t, i, node, q, side, tick, 1);
                } else {
                    assert(qq[i] != no_order());
                }
            }
        }
        lemma_queue_fits_kept(store, f.store, level, qq, s, t);
    }
    assert forall|id: Seq<u8>| absent(queues, id) implies #[trigger] stored_order(f.store, id)
        == stored_order(store, id) by {
        lemma_fill_touches(store, taker, rules, tick_price, node, remaining, totals, id);
        assert(queue_of(queues, side, tick)[0] != id);
    }
    assert forall|id: Seq<u8>| listed_if_open(#[trigger] stored_order(f.store, id), queues1, id) by {
        lemma_fill_touches(store, taker, rules, tick_price, node, remaining, totals, id);
        assert(listed_if_open(stored_order(store, id), queues, id));
        assert(rests_at(store, q[0], side, tick));
        lemma_leaving_keeps_listed(queues, side, tick, gone, id, stored_order(f.store, id));
    }
}

/// An open order that was in the queue of its level is still in it after
/// the first orders have left, unless it is one of them.
pub proof fn lemma_leaving_keeps_listed(
    queues: spec_fn(Side, i32) -> Seq<Seq<u8>>,
    side: Side,
    tick: i32,
    gone: int,
    id: Seq<u8>,
    stored: Option<Option<Order>>,
)
    requires
        0 <= gone <= queue_of(queues, side, tick).len(),
        listed_if_open(stored, queues, id),
        forall|i: int| 0 <= i < gone ==> #[trigger] queue_of(queues, side, tick)[i] != id || !(
        stored matches Some(Some(o)) && o.status == OrderStatus::Open),
    ensures
        listed_if_open(
            stored,
            with_queue(queues, side, tick, queue_of(queues, side, tick).skip(gone)),
            id,
        ),
{
    let q = queue_of(queues, side, tick);
    let left = with_queue(queues, side, tick, q.skip(gone));
    match stored {
        Some(Some(o)) => {
            if o.status == OrderStatus::Open {
                let was = queue_of(queues, o.side, o.tick);
                assert(was.contains(id));
                let i = choose|i: int| 0 <= i < was.len() && was[i] == id;
                if o.side == side && o.tick == tick {
                    assert(queue_of(queues, side, tick)[i] == id);
                    assert(i >= gone);
                    assert(q.skip(gone)[i - gone] == id);
                    assert(queue_of(left, o.side, o.tick) == q.skip(gone));
                } else {
                    assert(queue_of(left, o.side, o.tick) == was);
                }
            }
        },
        _ => {},
    }
}

/// Queues that are the same at every level fit alike.
pub proof fn lemma_same_queues_fit(
    store: Store,
    market: [u8; 32],
    one: spec_fn(Side, i32) -> Seq<Seq<u8>>,
    other: spec_fn(Side, i32) -> Seq<Seq<u8>>,
    side: Side,
    tick: i32,
    node: TickNode,
)
    requires
        forall|s: Side, t: i32| #[trigger] queue_of(one, s, t) == queue_of(other, s, t),
    ensures
        fits_in_hand(store, market, one, side, tick, node) ==> fits_in_hand(
            store,
            market,
            other,
            side,
            tick,
            node,
        ),
        queues_fit(store, market, one) ==> queues_fit(store, market, other),
{
    reveal(fits_in_hand);
    assert(queue_of(one, side, tick) == queue_of(other, side, tick));
    if fits_in_hand(store, market, one, side, tick, node) {
        assert forall|s: Side, t: i32| s != side || t != tick implies #[trigger] fits_at(
            store,
            market,
            other,
            s,
            t,
        ) by {
            assert(queue_of(one, s, t) == queue_of(other, s, t));
            assert(fits_at(store, market, one, s, t));
        }
    }
    if queues_fit(store, market, one) {
        assert forall|s: Side, t: i32| #[trigger] fits_at(store, market, other, s, t) by {
            assert(queue_of(one, s, t) == queue_of(other, s, t));
            assert(fits_at(store, market, one, s, t));
        }
    }
}

/// Whether the matching at a level has left the queues as they should
/// be: the first `gone` orders have left the queue of the level, the
/// queues are those of the market with the level in hand, and an order
/// that was in no queue is stored as it was.
pub open spec fn left_in_hand(
    before: Store,
    after: Store,
    market: [u8; 32],
    queues: spec_fn(Side, i32) -> Seq<Seq<u8>>,
    side: Side,
    tick: i32,
    node: TickNode,
    gone: int,
) -> bool {
    &&& 0 <= gone <= queue_of(queues, side, tick).len()
    &&& fits_in_hand(
        after,
        market,
        with_queue(queues, side, tick, queue_of(queues, side, tick).skip(gone)),
        side,
        tick,
        node,
    )
    &&& forall|id: Seq<u8>|
        absent(queues, id) ==> #[trigger] stored_order(after, id) == stored_order(before, id)
}

/// The matching at a level keeps the queues of the market: absent
/// collisions, with the level in hand, some of the first orders of its
/// queue leave and every other queue stays.
pub proof fn lemma_match_tick_keeps_queues(
    m: Matching,
    node: TickNode,
    taker: Taker,
    rules: Rules,
    tick_price: nat,
    market: [u8; 32],
    queues: spec_fn(Side, i32) -> Seq<Seq<u8>>,
    side: Side,
    tick: i32,
)
    requires
        collision_free(),
        fits_in_hand(m.store, market, queues, side, tick, node),
        match_tick_spec(m, node, taker, rules, tick_price) is Some,
    ensures
        ({
            let after = match_tick_spec(m, node, taker, rules, tick_price).unwrap();
            exists|gone: int| #[trigger]
                left_in_hand(m.store, after.0.store, market, queues, side, tick, after.1, gone)
        }),
    decreases rules.max_matches_per_order - m.matches,
{
    let after = match_tick_spec(m, node, taker, rules, tick_price).unwrap();
    let q = queue_of(queues, side, tick);
    if node.head_order_id@ == NONE_ORDER_ID@ || m.remaining == 0 {
        assert(q.skip(0) =~= q);
        lemma_same_queues_fit(
            m.store,
            market,
            queues,
            with_queue(queues, side, tick, q.skip(0)),
            side,
            tick,
            node,
        );
        assert(left_in_hand(m.store, after.0.store, market, queues, side, tick, after.1, 0));
    } else {
        lemma_fill_keeps_queues(
            m.store,
            taker,
            rules,
            tick_price,
            node,
            m.remaining,
            m.totals,
            market,
            queues,
            side,
            tick,
        );
        let f = fill_maker_spec(m.store, taker, rules, tick_price, node, m.remaining, m.totals).unwrap();
        let first: int = if f.node.head_order_id@ == node.head_order_id@ {
            0
        } else {
            1
        };
        let queues1 = with_queue(queues, side, tick, q.skip(first));
        let next = Matching {
            store: f.store,
            remaining: f.remaining,
            matches: m.matches + 1,
            best: m.best,
            totals: f.totals,
            trades: m.trades.push(f.trade),
        };
        lemma_match_tick_keeps_queues(
            next,
            f.node,
            taker,
            rules,
            tick_price,
            market,
            queues1,
            side,
            tick,
        );
        let more = choose|gone: int| #[trigger]
            left_in_hand(f.store, after.0.store, market, queues1, side, tick, after.1, gone);
        let q1 = queue_of(queues1, side, tick);
        assert(q1 == q.skip(first));
        assert(q1.skip(more) =~= q.skip(first + more));
        lemma_same_queues_fit(
            after.0.store,
            market,
            with_queue(queues1, side, tick, q1.skip(more)),
            with_queue(queues, side, tick, q.skip(first + more)),
            side,
            tick,
            after.1,
        );
        assert forall|id: Seq<u8>| absent(queues, id) implies #[trigger] stored_order(
            after.0.store,
            id,
        ) == stored_order(m.store, id) by {
            lemma_absent_after_leaving(queues, side, tick, first, id);
            assert(stored_order(f.store, id) == stored_order(m.store, id));
        }
        assert(left_in_hand(
            m.store,
            after.0.store,
            market,
            queues,
            side,
            tick,
            after.1,
            first + more,
        ));
    }
}

/// Whether a level has in `after` the head and the tail that it has in
/// `before`.
pub open spec fn same_ends(before: Store, after: Store, market: [u8; 32], side: Side, tick: i32) -> bool {
    &&& level_of(after, market, side, tick).head_order_id == level_of(
        before,
        market,
        side,
        tick,
    ).head_order_id
    &&& level_of(after, market, side, tick).tail_order_id == level_of(
        before,
        market,
        side,
        tick,
    ).tail_order_id
}

/// A queue fits a level by the head of the level and, where the queue
/// has orders, by its tail.
pub proof fn lemma_fits_by_ends(
    store: Store,
    one: TickNode,
    other: TickNode,
    queue: Seq<Seq<u8>>,
    side: Side,
    tick: i32,
)
    requires
        one.head_order_id@ == other.head_order_id@,
        queue.len() > 0 ==> one.tail_order_id@ == other.tail_order_id@,
        queue_fits(store, one, queue, side, tick),
    ensures
        queue_fits(store, other, queue, side, tick),
{
}

/// Taking an emptied level out of its list leaves it without head and
/// tail, and leaves every other level the head and the tail that it had.
pub proof fn lemma_drop_keeps_ends(
    store: Store,
    market: [u8; 32],
    side: Side,
    tick: i32,
    node: TickNode,
    best: MarketBest,
    s: Side,
    t: i32,
)
    requires
        collision_free(),
        book_in_order(store, market),
        tick != NONE_TICK,
        level_exists(level_of(store, market, side, tick)),
        node.prev_tick == level_of(store, market, side, tick).prev_tick,
        node.next_tick == level_of(store, market, side, tick).next_tick,
        drop_tick_spec(store, market, side, tick, node, best) is Some,
    ensures
        ({
            let after = drop_tick_spec(store, market, side, tick, node, best).unwrap().0;
            if s == side && t == tick {
                level_of(after, market, s, t) == empty_tick_node()
            } else {
                same_ends(store, after, market, s, t)
            }
        }),
{
    let own = levels_of(store, market, side);
    assert(side_in_order(store, market, side));
    assert(side_in_order(store, market, s));
    assert(level_in_order(own, best_tick(store, market, side), side, tick));
    assert(at(own, tick) == level_of(store, market, side, tick));
    lemma_dropped_levels(store, market, side, tick, node, best, s, t);
}

/// Whether a walk has left the queues as they should be: `left` are the
/// queues of the market afterwards, and an order that was in no queue is
/// in none and is stored as it was.
pub open spec fn walked(
    before: Store,
    after: Store,
    market: [u8; 32],
    queues: spec_fn(Side, i32) -> Seq<Seq<u8>>,
    left: spec_fn(Side, i32) -> Seq<Seq<u8>>,
) -> bool {
    &&& queues_fit(after, market, left)
    &&& forall|id: Seq<u8>|
        absent(queues, id) ==> absent(left, id) && #[trigger] stored_order(after, id)
            == stored_order(before, id)
}

/// A step of the walk keeps the queues of the market.
///
/// Absent collisions, in a book whose levels are in order and with the
/// best ticks in hand that the contents have: when the queues were those
/// of the market before the step, there are queues that are those of
/// the market after it.
pub proof fn lemma_match_step_keeps_queues(
    m: Matching,
    taker: Taker,
    rules: Rules,
    queues: spec_fn(Side, i32) -> Seq<Seq<u8>>,
)
    requires
        collision_free(),
        book_in_order(m.store, taker.market_id),
        stored_market_best(m.store, taker.market_id@) == Some(m.best),
        queues_fit(m.store, taker.market_id, queues),
        match_step_spec(m, taker, rules) is Some,
    ensures
        ({
            let after = match_step_spec(m, taker, rules).unwrap().0;
            exists|left: spec_fn(Side, i32) -> Seq<Seq<u8>>| #[trigger]
                walked(m.store, after.store, taker.market_id, queues, left)
        }),
{
    reveal(match_step_spec);
    reveal(fits_in_hand);
    lemma_key_facts();
    let market = taker.market_id;
    let book = taker.side.other();
    let current = best_of(m.best, book);
    let after = match_step_spec(m, taker, rules).unwrap().0;
    if current == NONE_TICK {
        assert(walked(m.store, after.store, market, queues, queues));
    } else {
        let tick_price = price_of(current, rules.tick_size@).unwrap();
        if !crosses(taker.side, tick_price, taker.limit_price@) || m.remaining == 0 {
            assert(walked(m.store, after.store, market, queues, queues));
        } else {
            let node = level_of(m.store, market, book, current);
            assert(fits_in_hand(m.store, market, queues, book, current, node)) by {
                assert(fits_at(m.store, market, queues, book, current));
                assert forall|s: Side, t: i32| s != book || t != current implies #[trigger] fits_at(
                    m.store,
                    market,
                    queues,
                    s,
                    t,
                ) by {}
            }
            lemma_match_tick_keeps_queues(
                m,
                node,
                taker,
                rules,
                tick_price,
                market,
                queues,
                book,
                current,
            );
            let matched = match_tick_spec(m, node, taker, rules, tick_price).unwrap();
            let m1 = matched.0;
            let node1 = matched.1;
            let gone = choose|gone: int| #[trigger]
                left_in_hand(m.store, m1.store, market, queues, book, current, node1, gone);
            let q = queue_of(queues, book, current);
            let q1 = q.skip(gone);
            let left = with_queue(queues, book, current, q1);
            assert(side_in_order(m.store, market, book));
            assert(at(levels_of(m.store, market, book), current) == node);
            assert(level_exists(node));
            lemma_match_tick_links(m, node, taker, rules, tick_price);
            lemma_match_tick_keeps(m, node, taker, rules, tick_price, Kind::TickNode);
            lemma_match_tick_keeps(m, node, taker, rules, tick_price, Kind::MarketBest);
            lemma_order_kept(m.store, m1.store, market, Side::Buy);
            lemma_order_kept(m.store, m1.store, market, Side::Sell);
            assert(stored_tick_node(m1.store, market@, book.code(), current) == Some(node)) by {
                let k = record_key(
                    Kind::TickNode,
                    market@ + seq![book.code()] + be_bytes(i32_bits(current), 4),
                );
                assert(lookup(m1.store, k) == lookup(m.store, k));
            }
            let dropped = node1.head_order_id@ == NONE_ORDER_ID@;
            if dropped {
                lemma_drop_tick_keeps(m1.store, market, book, current, node1, m1.best, Kind::Order);
                lemma_drop_tick_keeps(
                    m1.store,
                    market,
                    book,
                    current,
                    node1,
                    m1.best,
                    Kind::OrderNode,
                );
            }
            assert(keeps(m1.store, after.store, Kind::Order));
            assert(keeps(m1.store, after.store, Kind::OrderNode));
            assert(queue_of(left, book, current) == q1);
            assert(queue_fits(m1.store, node1, q1, book, current));
            assert forall|s: Side, t: i32| #[trigger] fits_at(after.store, market, left, s, t) by {
                let qq = queue_of(left, s, t);
                let was = if s == book && t == current {
                    node1
                } else {
                    level_of(m1.store, market, s, t)
                };
                if s != book || t != current {
                    assert(fits_at(m1.store, market, left, s, t));
                }
                assert(queue_fits(m1.store, was, qq, s, t));
                assert forall|i: int| 0 <= i < qq.len() implies same_order(
                    m1.store,
                    after.store,
                    #[trigger] qq[i],
                ) by {
                    lemma_orders_untouched(m1.store, after.store, qq[i]);
                }
                lemma_queue_fits_kept(m1.store, after.store, was, qq, s, t);
                if dropped {
                    lemma_drop_keeps_ends(m1.store, market, book, current, node1, m1.best, s, t);
                    if s == book && t == current {
                        assert(node1.head_order_id@ == entry(q1, 0));
                        assert(no_order() == NONE_ORDER_ID@);
                        assert(q1.len() == 0);
                        assert(empty_tick_node().head_order_id@ == NONE_ORDER_ID@);
                    }
                } else {
                    lemma_level_written(m1.store, market, book, current, node1, s, t);
                }
                lemma_fits_by_ends(
                    after.store,
                    was,
                    level_of(after.store, market, s, t),
                    qq,
                    s,
                    t,
                );
            }
            assert forall|id: Seq<u8>| absent(queues, id) implies absent(left, id)
                && #[trigger] stored_order(after.store, id) == stored_order(m.store, id) by {
                lemma_absent_after_leaving(queues, book, current, gone, id);
                lemma_orders_untouched(m1.store, after.store, id);
            }
            assert forall|id: Seq<u8>| listed_if_open(
                #[trigger] stored_order(after.store, id),
                left,
                id,
            ) by {
                lemma_orders_untouched(m1.store, after.store, id);
                assert(listed_if_open(stored_order(m1.store, id), left, id));
            }
            assert(walked(m.store, after.store, market, queues, left));
        }
    }
}

/// The walk over the levels keeps the queues of the market, under the
/// conditions of `lemma_match_step_keeps_queues`.
pub proof fn lemma_match_orders_keeps_queues(
    m: Matching,
    taker: Taker,
    rules: Rules,
    fuel: nat,
    queues: spec_fn(Side, i32) -> Seq<Seq<u8>>,
)
    requires
        collision_free(),
        book_in_order(m.store, taker.market_id),
        stored_market_best(m.store, taker.market_id@) == Some(m.best),
        queues_fit(m.store, taker.market_id, queues),
        match_orders_spec(m, taker, rules, fuel) is Some,
    ensures
        ({
            let after = match_orders_spec(m, taker, rules, fuel).unwrap();
            exists|left: spec_fn(Side, i32) -> Seq<Seq<u8>>| #[trigger]
                walked(m.store, after.store, taker.market_id, queues, left)
        }),
    decreases fuel,
{
    let market = taker.market_id;
    lemma_match_step_keeps_queues(m, taker, rules, queues);
    lemma_match_step_keeps_order(m, taker, rules);
    let stepped = match_step_spec(m, taker, rules).unwrap();
    let first = choose|left: spec_fn(Side, i32) -> Seq<Seq<u8>>| #[trigger]
        walked(m.store, stepped.0.store, market, queues, left);
    if stepped.1 {
        lemma_match_orders_keeps_queues(stepped.0, taker, rules, (fuel - 1) as nat, first);
        let after = match_orders_spec(m, taker, rules, fuel).unwrap();
        let last = choose|left: spec_fn(Side, i32) -> Seq<Seq<u8>>| #[trigger]
            walked(stepped.0.store, after.store, market, first, left);
        assert forall|id: Seq<u8>| absent(queues, id) implies absent(last, id)
            && #[trigger] stored_order(after.store, id) == stored_order(m.store, id) by {
            assert(stored_order(stepped.0.store, id) == stored_order(m.store, id));
            assert(absent(first, id));
        }
        assert(walked(m.store, after.store, market, queues, last));
    }
}

/// When no order, no queue link and no level is written, the queues of
/// the market are what they were.
pub proof fn lemma_queues_kept(
    before: Store,
    after: Store,
    market: [u8; 32],
    queues: spec_fn(Side, i32) -> Seq<Seq<u8>>,
)
    requires
        collision_free(),
        keeps(before, after, Kind::Order),
        keeps(before, after, Kind::OrderNode),
        keeps(before, after, Kind::TickNode),
        queues_fit(before, market, queues),
    ensures
        queues_fit(after, market, queues),
{
    lemma_key_facts();
    assert forall|s: Side, t: i32| #[trigger] fits_at(after, market, queues, s, t) by {
        let qq = queue_of(queues, s, t);
        assert(fits_at(before, market, queues, s, t));
        assert(level_of(after, market, s, t) == level_of(before, market, s, t)) by {
            let k = record_key(
                Kind::TickNode,
                market@ + seq![s.code()] + be_bytes(i32_bits(t), 4),
            );
            assert(lookup(after, k) == lookup(before, k));
        }
        assert forall|i: int| 0 <= i < qq.len() implies same_order(before, after, #[trigger] qq[i]) by {
            lemma_orders_untouched(before, after, qq[i]);
        }
        lemma_queue_fits_kept(before, after, level_of(before, market, s, t), qq, s, t);
    }
    assert forall|id: Seq<u8>| listed_if_open(#[trigger] stored_order(after, id), queues, id) by {
        lemma_orders_untouched(before, after, id);
        assert(listed_if_open(stored_order(before, id), queues, id));
    }
}

/// Writing an order that is in no queue and is not open keeps the
/// queues of the market.
pub proof fn lemma_order_written_keeps_queues(
    store: Store,
    market: [u8; 32],
    queues: spec_fn(Side, i32) -> Seq<Seq<u8>>,
    id: Seq<u8>,
    written: Order,
)
    requires
        collision_free(),
        queues_fit(store, market, queues),
        absent(queues, id),
        written.status != OrderStatus::Open,
    ensures
        queues_fit(store.insert(order_key(id), written.encoded()), market, queues),
{
    lemma_key_facts();
    lemma_order_decoded(written, written.encoded());
    let after = store.insert(order_key(id), written.encoded());
    assert(keeps(store, after, Kind::TickNode));
    assert(keeps(store, after, Kind::OrderNode));
    assert forall|s: Side, t: i32| #[trigger] fits_at(after, market, queues, s, t) by {
        let qq = queue_of(queues, s, t);
        assert(fits_at(store, market, queues, s, t));
        assert(level_of(after, market, s, t) == level_of(store, market, s, t)) by {
            let k = record_key(
                Kind::TickNode,
                market@ + seq![s.code()] + be_bytes(i32_bits(t), 4),
            );
            assert(lookup(after, k) == lookup(store, k));
        }
        assert forall|i: int| 0 <= i < qq.len() implies same_order(store, after, #[trigger] qq[i]) by {
            assert(queue_of(queues, s, t)[i] != id);
            assert(order_key(qq[i]) == record_key(Kind::Order, qq[i]));
            assert(order_key(id) == record_key(Kind::Order, id));
            assert(order_node_key(qq[i]) == record_key(Kind::OrderNode, qq[i]));
            lemma_same_order(store, after, qq[i]);
        }
        lemma_queue_fits_kept(store, after, level_of(store, market, s, t), qq, s, t);
    }
    assert forall|other: Seq<u8>| listed_if_open(
        #[trigger] stored_order(after, other),
        queues,
        other,
    ) by {
        assert(order_key(other) == record_key(Kind::Order, other));
        assert(order_key(id) == record_key(Kind::Order, id));
        assert(listed_if_open(stored_order(store, other), queues, other));
    }
}

/// An order that is stored as no order is in no queue.
pub proof fn lemma_new_order_absent(
    store: Store,
    market: [u8; 32],
    queues: spec_fn(Side, i32) -> Seq<Seq<u8>>,
    id: Seq<u8>,
)
    requires
        queues_fit(store, market, queues),
        stored_order(store, id) == Some(None::<Order>),
    ensures
        absent(queues, id),
{
    assert forall|s: Side, t: i32, i: int| 0 <= i < queue_of(queues, s, t).len() implies #[trigger] queue_of(
        queues,
        s,
        t,
    )[i] != id by {
        assert(fits_at(store, market, queues, s, t));
        assert(rests_at(store, queue_of(queues, s, t)[i], s, t));
    }
}

/// What coming to rest writes of the orders: the order itself, as an
/// order of its level, its queue links, and the queue links of the tail
/// of the level. Absent collisions, every other order is what it was.
pub proof fn lemma_rest_touches(
    store: Store,
    market: [u8; 32],
    order_id: [u8; 32],
    trader: [u8; 20],
    side: Side,
    tick: i32,
    qty: nat,
    tif: TimeInForce,
    prev: i32,
    next: i32,
    best: MarketBest,
    id: Seq<u8>,
)
    requires
        collision_free(),
        place_resting_spec(store, market, order_id, trader, side, tick, qty, tif, prev, next, best)
            is Some,
    ensures
        ({
            let after = place_resting_spec(
                store,
                market,
                order_id,
                trader,
                side,
                tick,
                qty,
                tif,
                prev,
                next,
                best,
            ).unwrap().0;
            let level = level_of(store, market, side, tick);
            &&& rests_at(after, order_id@, side, tick)
            &&& id != order_id@ ==> stored_order(after, id) == stored_order(store, id)
            &&& id != order_id@ && (level_exists(level) ==> id != level.tail_order_id@)
                ==> stored_order_node(after, id) == stored_order_node(store, id)
            &&& linked(store, id) ==> linked(after, id)
            &&& linked(after, order_id@)
        }),
{
    reveal(place_resting_spec);
    lemma_key_facts();
    lemma_links_keep(store, market, side, prev, next, tick, tick, Kind::Order);
    lemma_links_keep(store, market, side, prev, next, tick, tick, Kind::OrderNode);
    let written = Order {
        owner: trader,
        side,
        tick,
        qty_remaining: crate::book::u256(qty),
        tif,
        status: OrderStatus::Open,
    };
    lemma_order_decoded(written, written.encoded());
    let ko = record_key(Kind::Order, id);
    let kn = record_key(Kind::OrderNode, id);
    assert(order_key(id) == ko);
    assert(order_node_key(id) == kn);
    assert(order_key(order_id@) == record_key(Kind::Order, order_id@));
    assert(order_node_key(order_id@) == record_key(Kind::OrderNode, order_id@));
    let level = level_of(store, market, side, tick);
    assert(order_node_key(level.tail_order_id@) == record_key(
        Kind::OrderNode,
        level.tail_order_id@,
    ));
}

/// An order that comes to rest keeps the queues of the market, and
/// joins the queue of its level at the end.
///
/// Absent collisions, in a book whose levels are in order, for an order
/// that is in no queue and has an id other than the one that stands for
/// "no order": when the queues were those of the market, they are so
/// afterwards, with the order at the end of the queue of its level.
pub proof fn lemma_rest_keeps_queues(
    store: Store,
    market: [u8; 32],
    order_id: [u8; 32],
    trader: [u8; 20],
    side: Side,
    tick: i32,
    qty: nat,
    tif: TimeInForce,
    prev: i32,
    next: i32,
    best: MarketBest,
    queues: spec_fn(Side, i32) -> Seq<Seq<u8>>,
)
    requires
        collision_free(),
        book_in_order(store, market),
        order_id@ != NONE_ORDER_ID@,
        queues_fit(store, market, queues),
        absent(queues, order_id@),
        place_resting_spec(store, market, order_id, trader, side, tick, qty, tif, prev, next, best)
            is Some,
    ensures
        queues_fit(
            place_resting_spec(
                store,
                market,
                order_id,
                trader,
                side,
                tick,
                qty,
                tif,
                prev,
                next,
                best,
            ).unwrap().0,
            market,
            with_queue(queues, side, tick, queue_of(queues, side, tick).push(order_id@)),
        ),
{
    let after = place_resting_spec(
        store,
        market,
        order_id,
        trader,
        side,
        tick,
        qty,
        tif,
        prev,
        next,
        best,
    ).unwrap().0;
    let q = queue_of(queues, side, tick);
    let joined = q.push(order_id@);
    let left = with_queue(queues, side, tick, joined);
    let level = level_of(store, market, side, tick);
    assert(side_in_order(store, market, side));
    assert(fits_at(store, market, queues, side, tick));
    assert forall|i: int| 0 <= i < q.len() implies #[trigger] q[i] != order_id@ by {
        assert(queue_of(queues, side, tick)[i] != order_id@);
    }
    assert(no_order() == NONE_ORDER_ID@);
    lemma_rest_joins_queue(store, market, order_id, trader, side, tick, qty, tif, prev, next, best, q);
    if level_exists(level) {
        assert(level.head_order_id@ == entry(q, 0));
        assert(q.len() > 0);
        assert(level.tail_order_id@ == q.last());
    }
    assert forall|s: Side, t: i32| #[trigger] fits_at(after, market, left, s, t) by {
        let qq = queue_of(left, s, t);
        if s == side && t == tick {
            assert(qq == joined);
            assert forall|i: int| 0 <= i < joined.len() implies rests_at(
                after,
                #[trigger] joined[i],
                side,
                tick,
            ) by {
                lemma_rest_touches(
                    store,
                    market,
                    order_id,
                    trader,
                    side,
                    tick,
                    qty,
                    tif,
                    prev,
                    next,
                    best,
                    joined[i],
                );
                if i < q.len() {
                    assert(joined[i] == q[i]);
                    assert(rests_at(store, q[i], side, tick));
                }
            }
            assert forall|i: int| 0 <= i < joined.len() implies linked(after, #[trigger] joined[i]) by {
                lemma_rest_touches(
                    store,
                    market,
                    order_id,
                    trader,
                    side,
                    tick,
                    qty,
                    tif,
                    prev,
                    next,
                    best,
                    joined[i],
                );
                if i < q.len() {
                    assert(joined[i] == q[i]);
                    assert(linked(store, q[i]));
                }
            }
        } else {
            assert(qq == queue_of(queues, s, t));
            assert(fits_at(store, market, queues, s, t));
            let was = level_of(store, market, s, t);
            assert forall|i: int| 0 <= i < qq.len() implies same_order(store, after, #[trigger] qq[i]) by {
                lemma_rest_touches(
                    store,
                    market,
                    order_id,
                    trader,
                    side,
                    tick,
                    qty,
                    tif,
                    prev,
                    next,
                    best,
                    qq[i],
                );
                assert(queue_of(queues, s, t)[i] != order_id@);
                if level_exists(level) && qq[i] == level.tail_order_id@ {
                    lemma_queues_apart(
                        store,
                        was,
                        qq,
                        s,
                        t,
                        i,
                        level,
                        q,
                        side,
                        tick,
                        q.len() - 1,
                    );
                }
            }
            lemma_queue_fits_kept(store, after, was, qq, s, t);
            if level_exists(level) {
                lemma_joined_levels(
                    store,
                    market,
                    order_id,
                    trader,
                    side,
                    tick,
                    qty,
                    tif,
                    prev,
                    next,
                    best,
                    s,
                    t,
                );
            } else {
                lemma_opened_levels(
                    store,
                    market,
                    order_id,
                    trader,
                    side,
                    tick,
                    qty,
                    tif,
                    prev,
                    next,
                    best,
                    s,
                    t,
                );
                assert(side_in_order(store, market, s));
            }
            lemma_fits_by_ends(after, was, level_of(after, market, s, t), qq, s, t);
        }
    }
    assert forall|id: Seq<u8>| listed_if_open(#[trigger] stored_order(after, id), left, id) by {
        lemma_rest_touches(store, market, order_id, trader, side, tick, qty, tif, prev, next, best, id);
        assert(joined[q.len() as int] == order_id@);
        assert(queue_of(left, side, tick) == joined);
        if id != order_id@ {
            assert(listed_if_open(stored_order(store, id), queues, id));
            match stored_order(store, id) {
                Some(Some(o)) => {
                    if o.status == OrderStatus::Open {
                        let was = queue_of(queues, o.side, o.tick);
                        let i = choose|i: int| 0 <= i < was.len() && was[i] == id;
                        if o.side == side && o.tick == tick {
                            assert(joined[i] == id);
                        } else {
                            assert(queue_of(left, o.side, o.tick) == was);
                        }
                    }
                },
                _ => {},
            }
        }
    }
}

/// Placing an order keeps the queues of the market.
///
/// Absent collisions, in a book whose levels are in order: when
/// there were queues that were those of the market before the placement,
/// there are such queues after it. At every level the head then points
/// back to no order, the tail points on to no order, and walking on from
/// the head and walking back from the tail pass the same orders.
pub proof fn lemma_place_keeps_queues(
    store: Store,
    market: [u8; 32],
    rules: Rules,
    order: NewOrder,
    totals: Seq<FeeTotal>,
    trades: Seq<TradeRecord>,
    queues: spec_fn(Side, i32) -> Seq<Seq<u8>>,
)
    requires
        collision_free(),
        book_in_order(store, market),
        queues_fit(store, market, queues),
        place_spec(store, market, rules, order, totals, trades) is Some,
    ensures
        exists|left: spec_fn(Side, i32) -> Seq<Seq<u8>>| #[trigger]
            queues_fit(
                place_spec(store, market, rules, order, totals, trades).unwrap().store,
                market,
                left,
            ),
{
    reveal(place_spec);
    lemma_key_facts();
    let id = order.order_id@;
    let qty = order.qty_base@;
    let price = price_of(order.tick_index, rules.tick_size@).unwrap();
    lemma_new_order_absent(store, market, queues, id);
    let locked = lock_taker_spec(store, order.trader, order.side, price, qty, rules).unwrap();
    lemma_lock_keeps(store, order.trader, order.side, price, qty, rules);
    lemma_queues_kept(store, locked, market, queues);
    lemma_order_kept(store, locked, market, Side::Buy);
    lemma_order_kept(store, locked, market, Side::Sell);
    lemma_orders_untouched(store, locked, id);
    let best = stored_market_best(locked, market@).unwrap();
    let start = Matching { store: locked, remaining: qty, matches: 0, best, totals, trades };
    let taker = Taker {
        market_id: market,
        trader: order.trader,
        order_id: order.order_id,
        side: order.side,
        limit_price: crate::book::u256(price),
    };
    lemma_match_orders_keeps_queues(start, taker, rules, u64::MAX as nat, queues);
    lemma_match_orders_keeps_order(start, taker, rules, u64::MAX as nat);
    let m = match_orders_spec(start, taker, rules, u64::MAX as nat).unwrap();
    let left = choose|left: spec_fn(Side, i32) -> Seq<Seq<u8>>| #[trigger]
        walked(locked, m.store, market, queues, left);
    assert(stored_order(m.store, id) == stored_order(locked, id));
    assert(absent(left, id));
    let after = place_spec(store, market, rules, order, totals, trades).unwrap();
    if order.tif == TimeInForce::Gtc && m.remaining != 0 {
        lemma_rest_keeps_queues(
            m.store,
            market,
            order.order_id,
            order.trader,
            order.side,
            order.tick_index,
            m.remaining,
            order.tif,
            order.prev_tick_hint,
            order.next_tick_hint,
            m.best,
            left,
        );
        assert(queues_fit(
            after.store,
            market,
            with_queue(
                left,
                order.side,
                order.tick_index,
                queue_of(left, order.side, order.tick_index).push(id),
            ),
        ));
    } else {
        let releases = order.tif == TimeInForce::Ioc && m.remaining != 0;
        let released = if releases {
            release_spec(m.store, order.trader, order.side, m.remaining, price, rules).unwrap()
        } else {
            m.store
        };
        if releases {
            lemma_release_keeps(m.store, order.trader, order.side, m.remaining, price, rules);
            lemma_queues_kept(m.store, released, market, left);
        }
        let status = if m.remaining == 0 {
            OrderStatus::Filled
        } else {
            OrderStatus::Canceled
        };
        lemma_order_written_keeps_queues(released, market, left, id, closed_order(order, status));
        assert(queues_fit(after.store, market, left));
    }
}

/// Locking the taker's funds writes no order, no queue link, no level
/// and no best tick.
proof fn lemma_lock_keeps(
    store: Store,
    trader: [u8; 20],
    side: Side,
    price: nat,
    qty: nat,
    rules: Rules,
)
    requires
        collision_free(),
        lock_taker_spec(store, trader, side, price, qty, rules) is Some,
    ensures
        ({
            let after = lock_taker_spec(store, trader, side, price, qty, rules).unwrap();
            &&& keeps(store, after, Kind::Order)
            &&& keeps(store, after, Kind::OrderNode)
            &&& keeps(store, after, Kind::TickNode)
            &&& keeps(store, after, Kind::MarketBest)
        }),
{
    lemma_balance_writes_keep(store, trader, trader, side, qty, price, rules, arbitrary(), Kind::Order);
    lemma_balance_writes_keep(
        store,
        trader,
        trader,
        side,
        qty,
        price,
        rules,
        arbitrary(),
        Kind::OrderNode,
    );
    lemma_balance_writes_keep(
        store,
        trader,
        trader,
        side,
        qty,
        price,
        rules,
        arbitrary(),
        Kind::TickNode,
    );
    lemma_balance_writes_keep(
        store,
        trader,
        trader,
        side,
        qty,
        price,
        rules,
        arbitrary(),
        Kind::MarketBest,
    );
}

/// Releasing locked funds writes no order, no queue link, no level and
/// no best tick.
proof fn lemma_release_keeps(
    store: Store,
    trader: [u8; 20],
    side: Side,
    remaining: nat,
    price: nat,
    rules: Rules,
)
    requires
        collision_free(),
        release_spec(store, trader, side, remaining, price, rules) is Some,
    ensures
        ({
            let after = release_spec(store, trader, side, remaining, price, rules).unwrap();
            &&& keeps(store, after, Kind::Order)
            &&& keeps(store, after, Kind::OrderNode)
            &&& keeps(store, after, Kind::TickNode)
            &&& keeps(store, after, Kind::MarketBest)
        }),
{
    lemma_balance_writes_keep(
        store,
        trader,
        trader,
        side,
        remaining,
        price,
        rules,
        arbitrary(),
        Kind::Order,
    );
    lemma_balance_writes_keep(
        store,
        trader,
        trader,
        side,
        remaining,
        price,
        rules,
        arbitrary(),
        Kind::OrderNode,
    );
    lemma_balance_writes_keep(
        store,
        trader,
        trader,
        side,
        remaining,
        price,
        rules,
        arbitrary(),
        Kind::TickNode,
    );
    lemma_balance_writes_keep(
        store,
        trader,
        trader,
        side,
        remaining,
        price,
        rules,
        arbitrary(),
        Kind::MarketBest,
    );
}

/// Writing an order anew as an order of the level that it was an order
/// of keeps the queues of the market.
pub proof fn lemma_order_rewritten_keeps_queues(
    store: Store,
    market: [u8; 32],
    queues: spec_fn(Side, i32) -> Seq<Seq<u8>>,
    id: Seq<u8>,
    written: Order,
)
    requires
        collision_free(),
        queues_fit(store, market, queues),
        rests_at(store, id, written.side, written.tick),
        written.status == OrderStatus::Open ==> stored_order(
            store,
            id,
        ).unwrap().unwrap().status == OrderStatus::Open,
    ensures
        queues_fit(store.insert(order_key(id), written.encoded()), market, queues),
{
    lemma_key_facts();
    lemma_order_decoded(written, written.encoded());
    let after = store.insert(order_key(id), written.encoded());
    assert(keeps(store, after, Kind::TickNode));
    assert(keeps(store, after, Kind::OrderNode));
    assert forall|s: Side, t: i32| #[trigger] fits_at(after, market, queues, s, t) by {
        let qq = queue_of(queues, s, t);
        let level = level_of(store, market, s, t);
        assert(fits_at(store, market, queues, s, t));
        assert(level_of(after, market, s, t) == level) by {
            let k = record_key(
                Kind::TickNode,
                market@ + seq![s.code()] + be_bytes(i32_bits(t), 4),
            );
            assert(lookup(after, k) == lookup(store, k));
        }
        assert forall|i: int| 0 <= i < qq.len() implies #[trigger] link(links_of(after), qq[i])
            == link(links_of(store), qq[i]) by {
            assert(order_node_key(qq[i]) == record_key(Kind::OrderNode, qq[i]));
        }
        lemma_queue_kept(
            links_of(store),
            links_of(after),
            level.head_order_id@,
            level.tail_order_id@,
            qq,
        );
        assert forall|i: int| 0 <= i < qq.len() implies rests_at(after, #[trigger] qq[i], s, t) by {
            assert(rests_at(store, qq[i], s, t));
            assert(order_key(qq[i]) == record_key(Kind::Order, qq[i]));
            assert(order_key(id) == record_key(Kind::Order, id));
        }
    }
    assert forall|other: Seq<u8>| listed_if_open(
        #[trigger] stored_order(after, other),
        queues,
        other,
    ) by {
        assert(order_key(other) == record_key(Kind::Order, other));
        assert(order_key(id) == record_key(Kind::Order, id));
        assert(listed_if_open(stored_order(store, other), queues, other));
    }
}

/// What leaving a queue writes: the queue links of the order and of its
/// two neighbours in the queue, and levels. Absent collisions, in a book
/// whose levels are in order, every order is stored as it was, the queue
/// links of every other order are what they were, and every other level
/// has the head and the tail that it had.
pub proof fn lemma_remove_touches(
    store: Store,
    market: [u8; 32],
    side: Side,
    tick: i32,
    order_id: [u8; 32],
    id: Seq<u8>,
    s: Side,
    t: i32,
)
    requires
        collision_free(),
        book_in_order(store, market),
        tick != NONE_TICK,
        level_exists(level_of(store, market, side, tick)),
        remove_from_book_spec(store, market, side, tick, order_id) is Some,
    ensures
        ({
            let after = remove_from_book_spec(store, market, side, tick, order_id).unwrap();
            let links = link(links_of(store), order_id@);
            &&& stored_order(after, id) == stored_order(store, id)
            &&& id != order_id@ && id != links.prev_order_id@ && id != links.next_order_id@
                ==> stored_order_node(after, id) == stored_order_node(store, id)
            &&& linked(store, id) ==> linked(after, id)
            &&& s != side || t != tick ==> same_ends(store, after, market, s, t)
        }),
{
    reveal(remove_from_book_spec);
    lemma_key_facts();
    let node = stored_tick_node(store, market@, side.code(), tick).unwrap();
    let links = stored_order_node(store, order_id@).unwrap();
    let prev_id = links.prev_order_id;
    let next_id = links.next_order_id;
    let s1 = if prev_id@ != NONE_ORDER_ID@ {
        store.insert(
            order_node_key(prev_id@),
            OrderNode {
                prev_order_id: stored_order_node(store, prev_id@).unwrap().prev_order_id,
                next_order_id: next_id,
            }.encoded(),
        )
    } else {
        store
    };
    let n1 = if prev_id@ != NONE_ORDER_ID@ {
        node
    } else {
        TickNode {
            prev_tick: node.prev_tick,
            next_tick: node.next_tick,
            head_order_id: next_id,
            tail_order_id: node.tail_order_id,
        }
    };
    let s2 = if next_id@ != NONE_ORDER_ID@ {
        s1.insert(
            order_node_key(next_id@),
            OrderNode {
                prev_order_id: prev_id,
                next_order_id: stored_order_node(s1, next_id@).unwrap().next_order_id,
            }.encoded(),
        )
    } else {
        s1
    };
    let n2 = if next_id@ != NONE_ORDER_ID@ {
        n1
    } else {
        TickNode {
            prev_tick: n1.prev_tick,
            next_tick: n1.next_tick,
            head_order_id: n1.head_order_id,
            tail_order_id: prev_id,
        }
    };
    let s3 = s2.insert(order_node_key(order_id@), empty_order_node().encoded());
    assert(keeps(store, s1, Kind::TickNode) && keeps(store, s1, Kind::MarketBest) && keeps(
        store,
        s1,
        Kind::Order,
    ));
    assert(keeps(s1, s2, Kind::TickNode) && keeps(s1, s2, Kind::MarketBest) && keeps(
        s1,
        s2,
        Kind::Order,
    ));
    assert(keeps(s2, s3, Kind::TickNode) && keeps(s2, s3, Kind::MarketBest) && keeps(
        s2,
        s3,
        Kind::Order,
    ));
    assert(keeps(store, s3, Kind::TickNode) && keeps(store, s3, Kind::MarketBest) && keeps(
        store,
        s3,
        Kind::Order,
    ));
    lemma_order_kept(store, s3, market, Side::Buy);
    lemma_order_kept(store, s3, market, Side::Sell);
    let k = record_key(Kind::TickNode, market@ + seq![side.code()] + be_bytes(i32_bits(tick), 4));
    assert(lookup(s3, k) == lookup(store, k));
    assert(stored_tick_node(s3, market@, side.code(), tick) == Some(node));
    let kt = record_key(Kind::TickNode, market@ + seq![s.code()] + be_bytes(i32_bits(t), 4));
    assert(lookup(s3, kt) == lookup(store, kt));
    assert(level_of(s3, market, s, t) == level_of(store, market, s, t));
    let after = remove_from_book_spec(store, market, side, tick, order_id).unwrap();
    let ko = record_key(Kind::Order, id);
    let kn = record_key(Kind::OrderNode, id);
    assert(order_key(id) == ko);
    assert(order_node_key(id) == kn);
    assert(order_node_key(order_id@) == record_key(Kind::OrderNode, order_id@));
    assert(order_node_key(prev_id@) == record_key(Kind::OrderNode, prev_id@));
    assert(order_node_key(next_id@) == record_key(Kind::OrderNode, next_id@));
    assert(lookup(s3, ko) == lookup(store, ko));
    if id != order_id@ && id != prev_id@ && id != next_id@ {
        assert(lookup(s3, kn) == lookup(store, kn));
    }
    if n2.head_order_id@ == NONE_ORDER_ID@ {
        let s4 = set_links_spec(
            s3,
            market,
            side,
            n2.prev_tick,
            n2.next_tick,
            n2.next_tick,
            n2.prev_tick,
        ).unwrap();
        lemma_links_keep(
            s3,
            market,
            side,
            n2.prev_tick,
            n2.next_tick,
            n2.next_tick,
            n2.prev_tick,
            Kind::MarketBest,
        );
        let b = record_key(Kind::MarketBest, market@);
        assert(lookup(s4, b) == lookup(s3, b));
        let best = stored_market_best(s3, market@).unwrap();
        assert(stored_market_best(s4, market@) == Some(best));
        assert(drop_tick_spec(s3, market, side, tick, n2, best) is Some);
        assert(after == drop_tick_spec(s3, market, side, tick, n2, best).unwrap().0);
        lemma_drop_tick_keeps(s3, market, side, tick, n2, best, Kind::Order);
        lemma_drop_tick_keeps(s3, market, side, tick, n2, best, Kind::OrderNode);
        lemma_drop_keeps_ends(s3, market, side, tick, n2, best, s, t);
        assert(lookup(after, ko) == lookup(s3, ko));
        assert(lookup(after, kn) == lookup(s3, kn));
    } else {
        lemma_level_written(s3, market, side, tick, n2, s, t);
        assert(lookup(after, ko) == lookup(s3, ko));
        assert(lookup(after, kn) == lookup(s3, kn));
    }
}

/// An order that is taken out of the queue of its level keeps the
/// queues of the market.
///
/// Absent collisions, in a book whose levels are in order, for an order
/// that is no longer open, at some place in the queue of its level: when
/// the queues were those of the market, they are so afterwards, the
/// queue of the level without the order.
pub proof fn lemma_remove_keeps_queues(
    store: Store,
    market: [u8; 32],
    side: Side,
    tick: i32,
    order_id: [u8; 32],
    queues: spec_fn(Side, i32) -> Seq<Seq<u8>>,
    place: int,
)
    requires
        collision_free(),
        book_in_order(store, market),
        tick != NONE_TICK,
        queues_fit(store, market, queues),
        0 <= place < queue_of(queues, side, tick).len(),
        queue_of(queues, side, tick)[place] == order_id@,
        stored_order(store, order_id@).unwrap().unwrap().status != OrderStatus::Open,
        remove_from_book_spec(store, market, side, tick, order_id) is Some,
    ensures
        queues_fit(
            remove_from_book_spec(store, market, side, tick, order_id).unwrap(),
            market,
            with_queue(queues, side, tick, queue_of(queues, side, tick).remove(place)),
        ),
{
    let after = remove_from_book_spec(store, market, side, tick, order_id).unwrap();
    let q = queue_of(queues, side, tick);
    let rest = q.remove(place);
    let left = with_queue(queues, side, tick, rest);
    let level = level_of(store, market, side, tick);
    assert(side_in_order(store, market, side));
    assert(fits_at(store, market, queues, side, tick));
    assert(no_order() == NONE_ORDER_ID@);
    assert(level.head_order_id@ == entry(q, 0));
    assert(q[0] != no_order());
    assert(level_exists(level));
    lemma_remove_keeps_queue(store, market, side, tick, order_id, q, place);
    let links = link(links_of(store), order_id@);
    assert(links == link(links_of(store), q[place]));
    assert(links.prev_order_id@ == entry(q, place - 1));
    assert(links.next_order_id@ == entry(q, place + 1));
    assert forall|s: Side, t: i32| #[trigger] fits_at(after, market, left, s, t) by {
        let qq = queue_of(left, s, t);
        if s == side && t == tick {
            assert(qq == rest);
            assert forall|i: int| 0 <= i < rest.len() implies rests_at(
                after,
                #[trigger] rest[i],
                side,
                tick,
            ) by {
                lemma_remove_touches(store, market, side, tick, order_id, rest[i], s, t);
                if i < place {
                    assert(rest[i] == q[i]);
                    assert(rests_at(store, q[i], side, tick));
                } else {
                    assert(rest[i] == q[i + 1]);
                    assert(rests_at(store, q[i + 1], side, tick));
                }
            }
            assert forall|i: int| 0 <= i < rest.len() implies linked(after, #[trigger] rest[i]) by {
                lemma_remove_touches(store, market, side, tick, order_id, rest[i], s, t);
                if i < place {
                    assert(rest[i] == q[i]);
                    assert(linked(store, q[i]));
                } else {
                    assert(rest[i] == q[i + 1]);
                    assert(linked(store, q[i + 1]));
                }
            }
        } else {
            assert(qq == queue_of(queues, s, t));
            assert(fits_at(store, market, queues, s, t));
            let was = level_of(store, market, s, t);
            assert forall|i: int| 0 <= i < qq.len() implies same_order(store, after, #[trigger] qq[i]) by {
                lemma_remove_touches(store, market, side, tick, order_id, qq[i], s, t);
                assert(qq[i] != no_order());
                if qq[i] == order_id@ {
                    lemma_queues_apart(store, was, qq, s, t, i, level, q, side, tick, place);
                }
                if qq[i] == links.prev_order_id@ {
                    lemma_queues_apart(store, was, qq, s, t, i, level, q, side, tick, place - 1);
                }
                if qq[i] == links.next_order_id@ {
                    lemma_queues_apart(store, was, qq, s, t, i, level, q, side, tick, place + 1);
                }
            }
            lemma_queue_fits_kept(store, after, was, qq, s, t);
            lemma_remove_touches(store, market, side, tick, order_id, order_id@, s, t);
            lemma_fits_by_ends(after, was, level_of(after, market, s, t), qq, s, t);
        }
    }
    assert forall|id: Seq<u8>| listed_if_open(#[trigger] stored_order(after, id), left, id) by {
        lemma_remove_touches(store, market, side, tick, order_id, id, side, tick);
        assert(listed_if_open(stored_order(store, id), queues, id));
        assert(queue_of(left, side, tick) == rest);
        match stored_order(store, id) {
            Some(Some(o)) => {
                if o.status == OrderStatus::Open {
                    let was = queue_of(queues, o.side, o.tick);
                    let i = choose|i: int| 0 <= i < was.len() && was[i] == id;
                    if o.side == side && o.tick == tick {
                        assert(q[i] == id);
                        assert(i != place);
                        if i < place {
                            assert(rest[i] == id);
                        } else {
                            assert(rest[i - 1] == id);
                        }
                    } else {
                        assert(queue_of(left, o.side, o.tick) == was);
                    }
                }
            },
            _ => {},
        }
    }
}

/// Cancelling an order keeps the queues of the market.
///
/// Absent collisions, in a book whose levels are in order, for an order
/// that is at some place in the queue of its level: when the queues were
/// those of the market before the cancellation, they are so after it,
/// the queue of the level without the order. At every level the head
/// then points back to no order, the tail points on to no order, and
/// walking on from the head and walking back from the tail pass the same
/// orders.
pub proof fn lemma_cancel_keeps_queues(
    store: Store,
    market: [u8; 32],
    rules: Rules,
    trader: [u8; 20],
    order_id: [u8; 32],
    queues: spec_fn(Side, i32) -> Seq<Seq<u8>>,
    place: int,
)
    requires
        collision_free(),
        book_in_order(store, market),
        queues_fit(store, market, queues),
        cancel_spec(store, market, rules, trader, order_id) is Some,
        ({
            let order = stored_order(store, order_id@).unwrap().unwrap();
            let q = queue_of(queues, order.side, order.tick);
            0 <= place < q.len() && q[place] == order_id@
        }),
    ensures
        ({
            let order = stored_order(store, order_id@).unwrap().unwrap();
            let q = queue_of(queues, order.side, order.tick);
            queues_fit(
                cancel_spec(store, market, rules, trader, order_id).unwrap(),
                market,
                with_queue(queues, order.side, order.tick, q.remove(place)),
            )
        }),
{
    reveal(cancel_spec);
    lemma_key_facts();
    let order = stored_order(store, order_id@).unwrap().unwrap();
    let price = price_of(order.tick, rules.tick_size@).unwrap();
    let released = release_spec(store, trader, order.side, order.qty_remaining@, price, rules).unwrap();
    lemma_release_keeps(store, trader, order.side, order.qty_remaining@, price, rules);
    lemma_queues_kept(store, released, market, queues);
    lemma_order_kept(store, released, market, Side::Buy);
    lemma_order_kept(store, released, market, Side::Sell);
    lemma_orders_untouched(store, released, order_id@);
    let written = Order {
        owner: order.owner,
        side: order.side,
        tick: order.tick,
        qty_remaining: crate::book::u256(0),
        tif: order.tif,
        status: OrderStatus::Canceled,
    };
    let closed = released.insert(order_key(order_id@), written.encoded());
    lemma_order_rewritten_keeps_queues(released, market, queues, order_id@, written);
    assert(keeps(released, closed, Kind::TickNode));
    assert(keeps(released, closed, Kind::MarketBest));
    lemma_order_kept(released, closed, market, Side::Buy);
    lemma_order_kept(released, closed, market, Side::Sell);
    lemma_order_decoded(written, written.encoded());
    assert(stored_order(closed, order_id@) == Some(Some(written)));
    lemma_remove_keeps_queues(closed, market, order.side, order.tick, order_id, queues, place);
}

/// The queues of a market without orders: every queue is empty.
pub open spec fn no_queues() -> spec_fn(Side, i32) -> Seq<Seq<u8>> {
    |s: Side, t: i32| Seq::<Seq<u8>>::empty()
}

/// A market that holds nothing is in order: its levels are in order on
/// both sides, and the empty queues are its queues.
pub proof fn lemma_empty_market_in_order(market: [u8; 32])
    ensures
        book_in_order(Map::<Seq<u8>, Seq<u8>>::empty(), market),
        queues_fit(Map::<Seq<u8>, Seq<u8>>::empty(), market, no_queues()),
{
    let store = Map::<Seq<u8>, Seq<u8>>::empty();
    assert(no_order() == NONE_ORDER_ID@);
    assert forall|s: Side, t: i32| #[trigger] fits_at(store, market, no_queues(), s, t) by {
        assert(queue_of(no_queues(), s, t).len() == 0);
        assert(level_of(store, market, s, t).head_order_id@ == NONE_ORDER_ID@);
    }
    assert forall|s: Side, t: i32|
        t != NONE_TICK implies #[trigger] level_in_order(
        levels_of(store, market, s),
        best_tick(store, market, s),
        s,
        t,
    ) by {
        assert(at(levels_of(store, market, s), t) == level_of(store, market, s, t));
    }
    assert(side_in_order(store, market, Side::Buy));
    assert(side_in_order(store, market, Side::Sell));
}

} // verus!
