use crate::constants::NONE_ORDER_ID;
use crate::constants::NONE_TICK;
use crate::engine::best_of;
use crate::engine::empty_order_node;
use crate::engine::empty_tick_node;
use crate::engine::match_step_spec;
use crate::engine::fill_maker_spec;
use crate::engine::match_tick_spec;
use crate::engine::place_resting_spec;
use crate::engine::pop_head_spec;
use crate::engine::remove_from_book_spec;
use crate::engine::Matching;
use crate::engine::Store;
use crate::engine::Taker;
use crate::input::Rules;
use crate::ledger::collision_free;
use crate::ledger::keeps;
use crate::ledger::lemma_key_facts;
use crate::ledger::record_key;
use crate::ledger::Kind;
use crate::state::lookup;
use crate::state::order_node_key;
use crate::state::stored_order_node;
use crate::state::stored_tick_node;
use crate::types::lemma_order_node_decoded;
use crate::types::lemma_tick_node_decoded;
use crate::types::FeeTotal;
use crate::types::OrderNode;
use crate::types::Side;
use crate::types::TickNode;
use crate::types::TimeInForce;
use crate::verify::price_of;
use vstd::prelude::*;

verus! {

/// The queue links of an order.
pub open spec fn link(links: spec_fn(Seq<u8>) -> OrderNode, id: Seq<u8>) -> OrderNode {
    links(id)
}

/// The queue links of every order, as the contents have them.
pub open spec fn links_of(store: Store) -> spec_fn(Seq<u8>) -> OrderNode {
    |id: Seq<u8>| stored_order_node(store, id).unwrap()
}

/// The id that stands for "no order".
pub open spec fn no_order() -> Seq<u8> {
    NONE_ORDER_ID@
}

/// The `i`-th id of `queue`, or "no order" outside the queue.
pub open spec fn entry(queue: Seq<Seq<u8>>, i: int) -> Seq<u8> {
    if 0 <= i < queue.len() {
        queue[i]
    } else {
        no_order()
    }
}

/// Whether `queue` is the queue of a level with the given head and tail.
///
/// An empty queue belongs to a level without a head. Otherwise the head
/// is the first order and the tail the last; every order of the queue is
/// an order, and none occurs twice; each order points on to the order
/// after it and back to the order before it; the head points back to no
/// order and the tail points on to no order. So walking on from the head
/// and walking back from the tail pass the same orders.
pub open spec fn queue_in_order(
    links: spec_fn(Seq<u8>) -> OrderNode,
    head: Seq<u8>,
    tail: Seq<u8>,
    queue: Seq<Seq<u8>>,
) -> bool {
    &&& head == entry(queue, 0)
    &&& queue.len() > 0 ==> tail == queue.last()
    &&& forall|i: int| 0 <= i < queue.len() ==> #[trigger] queue[i] != no_order()
    &&& forall|i: int, j: int| 0 <= i < j < queue.len() ==> #[trigger] queue[i] != #[trigger] queue[j]
    &&& forall|i: int|
        0 <= i < queue.len() ==> (#[trigger] link(links, queue[i])).next_order_id@ == entry(
            queue,
            i + 1,
        ) && link(links, queue[i]).prev_order_id@ == entry(queue, i - 1)
}

/// Links that are what they were along a queue keep the queue in order.
pub proof fn lemma_queue_kept(
    before: spec_fn(Seq<u8>) -> OrderNode,
    after: spec_fn(Seq<u8>) -> OrderNode,
    head: Seq<u8>,
    tail: Seq<u8>,
    queue: Seq<Seq<u8>>,
)
    requires
        queue_in_order(before, head, tail, queue),
        forall|i: int|
            0 <= i < queue.len() ==> #[trigger] link(after, queue[i]) == link(before, queue[i]),
    ensures
        queue_in_order(after, head, tail, queue),
{
    assert forall|i: int| 0 <= i < queue.len() implies (#[trigger] link(
        after,
        queue[i],
    )).next_order_id@ == entry(queue, i + 1) && link(after, queue[i]).prev_order_id@ == entry(
        queue,
        i - 1,
    ) by {
        assert(link(after, queue[i]) == link(before, queue[i]));
    }
}

/// When the head leaves, the rest of the queue is the queue.
pub proof fn lemma_pop_queue(
    before: spec_fn(Seq<u8>) -> OrderNode,
    after: spec_fn(Seq<u8>) -> OrderNode,
    head: Seq<u8>,
    tail: Seq<u8>,
    queue: Seq<Seq<u8>>,
)
    requires
        queue_in_order(before, head, tail, queue),
        queue.len() > 0,
        queue.len() > 1 ==> link(after, queue[1]).prev_order_id@ == no_order() && link(
            after,
            queue[1],
        ).next_order_id == link(before, queue[1]).next_order_id,
        forall|i: int| 2 <= i < queue.len() ==> #[trigger] link(after, queue[i]) == link(
            before,
            queue[i],
        ),
    ensures
        queue_in_order(
            after,
            link(before, head).next_order_id@,
            if queue.len() == 1 {
                no_order()
            } else {
                tail
            },
            queue.skip(1),
        ),
{
    let rest = queue.skip(1);
    assert(link(before, queue[0]).next_order_id@ == entry(queue, 1));
    assert forall|i: int| 0 <= i < rest.len() implies #[trigger] rest[i] != no_order() by {
        assert(rest[i] == queue[i + 1]);
    }
    assert forall|i: int, j: int| 0 <= i < j < rest.len() implies #[trigger] rest[i]
        != #[trigger] rest[j] by {
        assert(rest[i] == queue[i + 1] && rest[j] == queue[j + 1]);
    }
    assert forall|i: int| 0 <= i < rest.len() implies (#[trigger] link(
        after,
        rest[i],
    )).next_order_id@ == entry(rest, i + 1) && link(after, rest[i]).prev_order_id@ == entry(
        rest,
        i - 1,
    ) by {
        assert(rest[i] == queue[i + 1]);
        assert(link(before, queue[i + 1]).next_order_id@ == entry(queue, i + 2));
        assert(entry(rest, i + 1) == entry(queue, i + 2));
        if i > 0 {
            assert(entry(rest, i - 1) == entry(queue, i));
            assert(link(after, queue[i + 1]) == link(before, queue[i + 1]));
        }
    }
    if rest.len() > 0 {
        assert(rest.last() == queue.last());
    }
}

/// When an order joins at the tail, the queue with the order at its end
/// is the queue.
pub proof fn lemma_append_queue(
    before: spec_fn(Seq<u8>) -> OrderNode,
    after: spec_fn(Seq<u8>) -> OrderNode,
    head: Seq<u8>,
    tail: Seq<u8>,
    queue: Seq<Seq<u8>>,
    id: Seq<u8>,
)
    requires
        queue_in_order(before, head, tail, queue),
        id != no_order(),
        forall|i: int| 0 <= i < queue.len() ==> #[trigger] queue[i] != id,
        link(after, id).next_order_id@ == no_order(),
        link(after, id).prev_order_id@ == entry(queue, queue.len() - 1),
        queue.len() > 0 ==> link(after, queue.last()).next_order_id@ == id && link(
            after,
            queue.last(),
        ).prev_order_id == link(before, queue.last()).prev_order_id,
        forall|i: int| 0 <= i < queue.len() - 1 ==> #[trigger] link(after, queue[i]) == link(
            before,
            queue[i],
        ),
    ensures
        queue_in_order(
            after,
            if queue.len() == 0 {
                id
            } else {
                head
            },
            id,
            queue.push(id),
        ),
{
    let grown = queue.push(id);
    assert(grown.last() == id);
    assert forall|i: int| 0 <= i < grown.len() implies #[trigger] grown[i] != no_order() by {
        if i < queue.len() {
            assert(grown[i] == queue[i]);
        }
    }
    assert forall|i: int, j: int| 0 <= i < j < grown.len() implies #[trigger] grown[i]
        != #[trigger] grown[j] by {
        assert(grown[i] == queue[i]);
        if j < queue.len() {
            assert(grown[j] == queue[j]);
        }
    }
    assert forall|i: int| 0 <= i < grown.len() implies (#[trigger] link(
        after,
        grown[i],
    )).next_order_id@ == entry(grown, i + 1) && link(after, grown[i]).prev_order_id@ == entry(
        grown,
        i - 1,
    ) by {
        if i < queue.len() {
            assert(grown[i] == queue[i]);
            assert(link(before, queue[i]).next_order_id@ == entry(queue, i + 1));
            if i + 1 < queue.len() {
                assert(grown[i + 1] == queue[i + 1]);
                assert(link(after, queue[i]) == link(before, queue[i]));
            } else {
                assert(queue[i] == queue.last());
            }
            if i > 0 {
                assert(grown[i - 1] == queue[i - 1]);
            }
        } else {
            if i > 0 {
                assert(grown[i - 1] == queue[i - 1]);
            }
        }
    }
}

/// When an order leaves from anywhere in the queue, the queue without
/// the order is the queue.
pub proof fn lemma_remove_queue(
    before: spec_fn(Seq<u8>) -> OrderNode,
    after: spec_fn(Seq<u8>) -> OrderNode,
    head: Seq<u8>,
    tail: Seq<u8>,
    queue: Seq<Seq<u8>>,
    at: int,
)
    requires
        queue_in_order(before, head, tail, queue),
        0 <= at < queue.len(),
        at > 0 ==> link(after, queue[at - 1]).next_order_id@ == entry(queue, at + 1) && link(
            after,
            queue[at - 1],
        ).prev_order_id == link(before, queue[at - 1]).prev_order_id,
        at + 1 < queue.len() ==> link(after, queue[at + 1]).prev_order_id@ == entry(queue, at - 1)
            && link(after, queue[at + 1]).next_order_id == link(
            before,
            queue[at + 1],
        ).next_order_id,
        forall|i: int|
            0 <= i < queue.len() && i != at && i != at - 1 && i != at + 1 ==> #[trigger] link(
                after,
                queue[i],
            ) == link(before, queue[i]),
    ensures
        queue_in_order(
            after,
            if at == 0 {
                entry(queue, 1)
            } else {
                head
            },
            if at == queue.len() - 1 {
                entry(queue, at - 1)
            } else {
                tail
            },
            queue.remove(at),
        ),
{
    let rest = queue.remove(at);
    assert forall|i: int| 0 <= i < rest.len() implies #[trigger] rest[i] == (if i < at {
        queue[i]
    } else {
        queue[i + 1]
    }) by {}
    assert forall|i: int| 0 <= i < rest.len() implies #[trigger] rest[i] != no_order() by {
        if i < at {
            assert(rest[i] == queue[i]);
        } else {
            assert(rest[i] == queue[i + 1]);
        }
    }
    assert forall|i: int, j: int| 0 <= i < j < rest.len() implies #[trigger] rest[i]
        != #[trigger] rest[j] by {
        let a = if i < at {
            i
        } else {
            i + 1
        };
        let b = if j < at {
            j
        } else {
            j + 1
        };
        assert(rest[i] == queue[a] && rest[j] == queue[b]);
    }
    assert forall|i: int| 0 <= i < rest.len() implies (#[trigger] link(
        after,
        rest[i],
    )).next_order_id@ == entry(rest, i + 1) && link(after, rest[i]).prev_order_id@ == entry(
        rest,
        i - 1,
    ) by {
        let a = if i < at {
            i
        } else {
            i + 1
        };
        assert(rest[i] == queue[a]);
        assert(link(before, queue[a]).next_order_id@ == entry(queue, a + 1));
        assert(link(before, queue[a]).prev_order_id@ == entry(queue, a - 1));
        if i + 1 < rest.len() {
            assert(rest[i + 1] == queue[if i + 1 < at {
                i + 1
            } else {
                i + 2
            }]);
        }
        if i > 0 {
            assert(rest[i - 1] == queue[if i - 1 < at {
                i - 1
            } else {
                i
            }]);
        }
        if a != at - 1 && a != at + 1 {
            assert(link(after, queue[a]) == link(before, queue[a]));
        }
    }
    if rest.len() > 0 {
        assert(rest.last() == rest[rest.len() - 1]);
        assert(queue.last() == queue[queue.len() - 1]);
    }
}

/// Whether `queue` is the queue of the level `node` in the contents.
pub open spec fn level_queue(store: Store, node: TickNode, queue: Seq<Seq<u8>>) -> bool {
    queue_in_order(links_of(store), node.head_order_id@, node.tail_order_id@, queue)
}

/// After the links of an order are written, they are read as written,
/// and, absent collisions, the links of every other order are read as
/// before.
pub proof fn lemma_links_written(store: Store, id: Seq<u8>, node: OrderNode, other: Seq<u8>)
    requires
        collision_free(),
    ensures
        ({
            let after = store.insert(order_node_key(id), node.encoded());
            &&& stored_order_node(after, id) == Some(node)
            &&& other != id ==> stored_order_node(after, other) == stored_order_node(store, other)
        }),
{
    lemma_order_node_decoded(node, node.encoded());
    lemma_key_facts();
}

/// When the order nodes are as they were, the queue of a level is the
/// queue it was.
pub proof fn lemma_level_queue_kept(
    before: Store,
    after: Store,
    node: TickNode,
    queue: Seq<Seq<u8>>,
)
    requires
        collision_free(),
        keeps(before, after, Kind::OrderNode),
        level_queue(before, node, queue),
    ensures
        level_queue(after, node, queue),
{
    lemma_key_facts();
    assert forall|i: int| 0 <= i < queue.len() implies #[trigger] link(links_of(after), queue[i])
        == link(links_of(before), queue[i]) by {
        let k = record_key(Kind::OrderNode, queue[i]);
        assert(lookup(after, k) == lookup(before, k));
    }
    lemma_queue_kept(
        links_of(before),
        links_of(after),
        node.head_order_id@,
        node.tail_order_id@,
        queue,
    );
}

/// After the head of a level has left, the rest of the queue is the
/// queue of the level.
pub proof fn lemma_pop_keeps_queue(store: Store, node: TickNode, queue: Seq<Seq<u8>>)
    requires
        collision_free(),
        level_queue(store, node, queue),
        queue.len() > 0,
        pop_head_spec(store, node, node.head_order_id) is Some,
    ensures
        ({
            let after = pop_head_spec(store, node, node.head_order_id).unwrap();
            &&& level_queue(after.0, after.1, queue.skip(1))
            &&& after.1.head_order_id@ == entry(queue, 1)
        }),
{
    let maker = node.head_order_id;
    let after = pop_head_spec(store, node, maker).unwrap();
    let before_links = links_of(store);
    let after_links = links_of(after.0);
    let maker_node = stored_order_node(store, maker@).unwrap();
    let next_id = maker_node.next_order_id;
    assert(maker@ == queue[0]);
    assert(link(before_links, queue[0]).next_order_id@ == entry(queue, 1));
    if queue.len() > 1 {
        let next_node = stored_order_node(store, next_id@).unwrap();
        let cleared = OrderNode {
            prev_order_id: NONE_ORDER_ID,
            next_order_id: next_node.next_order_id,
        };
        let s1 = store.insert(order_node_key(next_id@), cleared.encoded());
        lemma_links_written(store, next_id@, cleared, maker@);
        assert(queue[1] != queue[0]);
        lemma_links_written(s1, maker@, empty_order_node(), next_id@);
        assert(link(after_links, queue[1]) == cleared);
        assert forall|i: int| 2 <= i < queue.len() implies #[trigger] link(after_links, queue[i])
            == link(before_links, queue[i]) by {
            assert(queue[i] != queue[0] && queue[i] != queue[1]);
            lemma_links_written(store, next_id@, cleared, queue[i]);
            lemma_links_written(s1, maker@, empty_order_node(), queue[i]);
        }
    }
    lemma_pop_queue(before_links, after_links, node.head_order_id@, node.tail_order_id@, queue);
}

/// A fill takes the order at the head of the queue and keeps the queue.
///
/// Absent collisions, on a level with a queue that is in order: the maker
/// of the trade is the first order of the queue; and afterwards either
/// the rest of the queue is the queue of the level, the maker having
/// left, or nothing remains of the taker and the queue is as it was.
pub proof fn lemma_fill_keeps_queue(
    store: Store,
    taker: Taker,
    rules: Rules,
    tick_price: nat,
    node: TickNode,
    remaining: nat,
    totals: Seq<FeeTotal>,
    queue: Seq<Seq<u8>>,
)
    requires
        collision_free(),
        level_queue(store, node, queue),
        queue.len() > 0,
        fill_maker_spec(store, taker, rules, tick_price, node, remaining, totals) is Some,
    ensures
        ({
            let f = fill_maker_spec(store, taker, rules, tick_price, node, remaining, totals).unwrap();
            &&& f.trade.maker_order_id@ == queue[0]
            &&& level_queue(f.store, f.node, queue.skip(1)) || (f.remaining == 0 && level_queue(
                f.store,
                f.node,
                queue,
            ))
        }),
{
    reveal(fill_maker_spec);
    lemma_key_facts();
    let maker_id = node.head_order_id;
    let maker = crate::state::stored_order(store, maker_id@).unwrap().unwrap();
    let terms = crate::book::fill_terms_spec(remaining, maker.qty_remaining@, tick_price, rules).unwrap();
    let settled = crate::engine::settle_fill_spec(
        store,
        taker.side,
        taker.trader,
        maker.owner,
        rules,
        terms,
    ).unwrap();
    crate::ledger::lemma_balance_writes_keep(
        store,
        taker.trader,
        maker.owner,
        taker.side,
        0,
        0,
        rules,
        terms,
        Kind::OrderNode,
    );
    let collected = crate::engine::collect_fee_spec(settled, rules.quote_asset_id, terms.fee@).unwrap();
    crate::ledger::lemma_fee_write_keeps(settled, rules.quote_asset_id, terms.fee@, Kind::OrderNode);
    let left = (maker.qty_remaining@ - terms.fill_qty@) as nat;
    let maker1 = crate::types::Order {
        owner: maker.owner,
        side: maker.side,
        tick: maker.tick,
        qty_remaining: crate::book::u256(left),
        tif: maker.tif,
        status: if left == 0 {
            crate::types::OrderStatus::Filled
        } else {
            crate::types::OrderStatus::Open
        },
    };
    let written = collected.insert(crate::state::order_key(maker_id@), maker1.encoded());
    assert(keeps(collected, written, Kind::OrderNode));
    assert(keeps(store, written, Kind::OrderNode));
    lemma_level_queue_kept(store, written, node, queue);
    if left == 0 {
        lemma_pop_keeps_queue(written, node, queue);
    } else {
        crate::book::lemma_u256(terms.fill_qty, if remaining < maker.qty_remaining@ {
            remaining
        } else {
            maker.qty_remaining@
        });
    }
}

/// The matching at a level fills the queue from its head, first come
/// first served.
///
/// Absent collisions, on a level with a queue that is in order: the
/// trades of the matching are added to the trades in hand; their makers
/// are the orders of the queue in the order of the queue, from the first
/// on; and afterwards what is left of the queue is the queue of the
/// level, the orders that were filled whole having left.
pub proof fn lemma_match_tick_first_come(
    m: Matching,
    node: TickNode,
    taker: Taker,
    rules: Rules,
    tick_price: nat,
    queue: Seq<Seq<u8>>,
)
    requires
        collision_free(),
        level_queue(m.store, node, queue),
        match_tick_spec(m, node, taker, rules, tick_price) is Some,
    ensures
        ({
            let after = match_tick_spec(m, node, taker, rules, tick_price).unwrap();
            let made = after.0.trades.len() - m.trades.len();
            &&& 0 <= made <= queue.len()
            &&& after.0.trades.take(m.trades.len() as int) == m.trades
            &&& forall|j: int|
                0 <= j < made ==> (#[trigger] after.0.trades[m.trades.len() + j]).maker_order_id@
                    == queue[j]
            &&& exists|gone: int|
                0 <= gone <= queue.len() && (gone == made || (gone + 1 == made
                    && after.0.remaining == 0)) && #[trigger] level_queue(
                    after.0.store,
                    after.1,
                    queue.skip(gone),
                )
        }),
    decreases rules.max_matches_per_order - m.matches,
{
    let after = match_tick_spec(m, node, taker, rules, tick_price).unwrap();
    if node.head_order_id@ == NONE_ORDER_ID@ || m.remaining == 0 {
        assert(after.0.trades.take(m.trades.len() as int) =~= m.trades);
        assert(queue.skip(0) =~= queue);
        assert(level_queue(after.0.store, after.1, queue.skip(0)));
    } else {
        assert(queue.len() > 0);
        lemma_fill_keeps_queue(m.store, taker, rules, tick_price, node, m.remaining, m.totals, queue);
        let f = fill_maker_spec(m.store, taker, rules, tick_price, node, m.remaining, m.totals).unwrap();
        let next = Matching {
            store: f.store,
            remaining: f.remaining,
            matches: m.matches + 1,
            best: m.best,
            totals: f.totals,
            trades: m.trades.push(f.trade),
        };
        let grown = m.trades.push(f.trade);
        if level_queue(f.store, f.node, queue.skip(1)) {
            let rest = queue.skip(1);
            lemma_match_tick_first_come(next, f.node, taker, rules, tick_price, rest);
            let made_rest = after.0.trades.len() - grown.len();
            assert(after.0.trades.take(grown.len() as int) == grown);
            assert(after.0.trades.take(m.trades.len() as int) =~= grown.take(
                m.trades.len() as int,
            ));
            assert(grown.take(m.trades.len() as int) =~= m.trades);
            assert(after.0.trades[m.trades.len() as int] == grown[m.trades.len() as int]) by {
                assert(after.0.trades.take(grown.len() as int)[m.trades.len() as int]
                    == after.0.trades[m.trades.len() as int]);
            }
            assert forall|j: int| 0 <= j < made_rest + 1 implies (#[trigger] after.0.trades[m.trades.len()
                + j]).maker_order_id@ == queue[j] by {
                if j > 0 {
                    assert(after.0.trades[grown.len() + (j - 1)].maker_order_id@ == rest[j - 1]);
                    assert(rest[j - 1] == queue[j]);
                }
            }
            let gone_rest = choose|gone: int|
                0 <= gone <= rest.len() && (gone == made_rest || (gone + 1 == made_rest
                    && after.0.remaining == 0)) && #[trigger] level_queue(
                    after.0.store,
                    after.1,
                    rest.skip(gone),
                );
            assert(rest.skip(gone_rest) =~= queue.skip(gone_rest + 1));
            assert(level_queue(after.0.store, after.1, queue.skip(gone_rest + 1)));
        } else {
            assert(f.remaining == 0);
            assert(after == (next, f.node));
            assert(after.0.trades.take(m.trades.len() as int) =~= m.trades);
            assert(queue.skip(0) =~= queue);
            assert(level_queue(after.0.store, after.1, queue.skip(0)));
        }
    }
}

/// The matching at a level ends only when the level has no order left or
/// nothing remains of the taker.
pub proof fn lemma_match_tick_ends(
    m: Matching,
    node: TickNode,
    taker: Taker,
    rules: Rules,
    tick_price: nat,
)
    requires
        match_tick_spec(m, node, taker, rules, tick_price) is Some,
    ensures
        ({
            let after = match_tick_spec(m, node, taker, rules, tick_price).unwrap();
            after.1.head_order_id@ == NONE_ORDER_ID@ || after.0.remaining == 0
        }),
    decreases rules.max_matches_per_order - m.matches,
{
    if node.head_order_id@ == NONE_ORDER_ID@ || m.remaining == 0 {
    } else {
        let f = fill_maker_spec(m.store, taker, rules, tick_price, node, m.remaining, m.totals).unwrap();
        lemma_match_tick_ends(
            Matching {
                store: f.store,
                remaining: f.remaining,
                matches: m.matches + 1,
                best: m.best,
                totals: f.totals,
                trades: m.trades.push(f.trade),
            },
            f.node,
            taker,
            rules,
            tick_price,
        );
    }
}

/// The walk moves on to the next level only from a level that it has
/// emptied: absent collisions, when the walk goes on after a step, the
/// level that the step matched is stored without orders and neighbours.
pub proof fn lemma_walk_leaves_no_order_behind(m: Matching, taker: Taker, rules: Rules)
    requires
        collision_free(),
        match_step_spec(m, taker, rules) is Some,
        match_step_spec(m, taker, rules).unwrap().1,
    ensures
        ({
            let book = taker.side.other();
            let current = best_of(m.best, book);
            let after = match_step_spec(m, taker, rules).unwrap().0;
            &&& current != NONE_TICK
            &&& stored_tick_node(after.store, taker.market_id@, book.code(), current) == Some(
                empty_tick_node(),
            )
        }),
{
    reveal(match_step_spec);
    lemma_key_facts();
    let book = taker.side.other();
    let current = best_of(m.best, book);
    let tick_price = price_of(current, rules.tick_size@).unwrap();
    let node = stored_tick_node(m.store, taker.market_id@, book.code(), current).unwrap();
    lemma_match_tick_ends(m, node, taker, rules, tick_price);
    lemma_tick_node_decoded(empty_tick_node(), empty_tick_node().encoded());
}

/// An order that comes to rest joins the queue of its level at the end.
///
/// Absent collisions, for an order that is not in the queue and has an
/// id other than the one that stands for "no order", at a level with a
/// queue that is in order and is empty exactly when the level does not
/// exist: afterwards the queue with the order at its end is the queue of
/// the level.
pub proof fn lemma_rest_joins_queue(
    store: Store,
    market: [u8; 32],
    order_id: [u8; 32],
    trader: [u8; 20],
    side: Side,
    tick: i32,
    qty: nat,
    tif: TimeInForce,
    prev: i32,
    next: i32,
    best: crate::types::MarketBest,
    queue: Seq<Seq<u8>>,
)
    requires
        collision_free(),
        forall|u: i32| #[trigger] stored_tick_node(store, market@, side.code(), u) is Some,
        level_queue(store, stored_tick_node(store, market@, side.code(), tick).unwrap(), queue),
        order_id@ != no_order(),
        forall|i: int| 0 <= i < queue.len() ==> #[trigger] queue[i] != order_id@,
        place_resting_spec(store, market, order_id, trader, side, tick, qty, tif, prev, next, best)
            is Some,
    ensures
        ({
            let after = place_resting_spec(
                store,
                market,
                order_id,
                trader,
                side,
                tick,
                qty,
                tif,
                prev,
                next,
                best,
            ).unwrap().0;
            level_queue(
                after,
                stored_tick_node(after, market@, side.code(), tick).unwrap(),
                queue.push(order_id@),
            )
        }),
{
    reveal(place_resting_spec);
    lemma_key_facts();
    let level = stored_tick_node(store, market@, side.code(), tick).unwrap();
    let after = place_resting_spec(
        store,
        market,
        order_id,
        trader,
        side,
        tick,
        qty,
        tif,
        prev,
        next,
        best,
    ).unwrap().0;
    let before_links = links_of(store);
    let after_links = links_of(after);
    let active = level.head_order_id@ != NONE_ORDER_ID@;
    let old_tail = if active {
        level.tail_order_id
    } else {
        NONE_ORDER_ID
    };
    let own = OrderNode { prev_order_id: old_tail, next_order_id: NONE_ORDER_ID };
    if active {
        crate::levels::lemma_joined_levels(
            store,
            market,
            order_id,
            trader,
            side,
            tick,
            qty,
            tif,
            prev,
            next,
            best,
            side,
            tick,
        );
        assert(queue.len() > 0);
        let tail_id = level.tail_order_id;
        assert(tail_id@ == queue.last());
        assert(queue.last() == queue[queue.len() - 1]);
        let joined_tail = OrderNode {
            prev_order_id: stored_order_node(store, tail_id@).unwrap().prev_order_id,
            next_order_id: order_id,
        };
        let s1 = store.insert(order_node_key(tail_id@), joined_tail.encoded());
        let node2 = TickNode {
            prev_tick: level.prev_tick,
            next_tick: level.next_tick,
            head_order_id: level.head_order_id,
            tail_order_id: order_id,
        };
        let s2 = s1.insert(crate::state::tick_node_key(market@, side.code(), tick), node2.encoded());
        assert(keeps(s1, s2, Kind::OrderNode));
        let s3 = s2.insert(
            crate::state::order_key(order_id@),
            crate::types::Order {
                owner: trader,
                side,
                tick,
                qty_remaining: crate::book::u256(qty),
                tif,
                status: crate::types::OrderStatus::Open,
            }.encoded(),
        );
        assert(keeps(s2, s3, Kind::OrderNode));
        assert(after == s3.insert(order_node_key(order_id@), own.encoded()));
        assert forall|id: Seq<u8>| #[trigger]
            stored_order_node(s3, id) == stored_order_node(s1, id) by {
            let k = record_key(Kind::OrderNode, id);
            assert(lookup(s3, k) == lookup(s2, k));
            assert(lookup(s2, k) == lookup(s1, k));
        }
        lemma_links_written(s3, order_id@, own, tail_id@);
        lemma_links_written(store, tail_id@, joined_tail, tail_id@);
        assert(link(after_links, queue.last()) == joined_tail);
        assert forall|i: int| 0 <= i < queue.len() - 1 implies #[trigger] link(
            after_links,
            queue[i],
        ) == link(before_links, queue[i]) by {
            assert(queue[i] != queue[queue.len() - 1]);
            lemma_links_written(s3, order_id@, own, queue[i]);
            lemma_links_written(store, tail_id@, joined_tail, queue[i]);
        }
        lemma_append_queue(
            before_links,
            after_links,
            level.head_order_id@,
            level.tail_order_id@,
            queue,
            order_id@,
        );
    } else {
        crate::levels::lemma_opened_levels(
            store,
            market,
            order_id,
            trader,
            side,
            tick,
            qty,
            tif,
            prev,
            next,
            best,
            side,
            tick,
        );
        assert(queue.len() == 0);
        lemma_links_written(arbitrary(), order_id@, own, order_id@);
        let last = record_key(Kind::OrderNode, order_id@);
        assert(lookup(after, last) == Some(own.encoded()));
        assert(link(after_links, order_id@) == own);
        lemma_append_queue(
            before_links,
            after_links,
            level.head_order_id@,
            level.tail_order_id@,
            queue,
            order_id@,
        );
    }
}

/// An order that is taken out of the queue of its level leaves the queue
/// in order.
///
/// Absent collisions, for the order at some place in a queue that is in
/// order: afterwards the queue without the order is the queue of the
/// level, and the level has no head if no order is left.
pub proof fn lemma_remove_keeps_queue(
    store: Store,
    market: [u8; 32],
    side: Side,
    tick: i32,
    order_id: [u8; 32],
    queue: Seq<Seq<u8>>,
    place: int,
)
    requires
        collision_free(),
        0 <= place < queue.len(),
        queue[place] == order_id@,
        stored_tick_node(store, market@, side.code(), tick) is Some,
        level_queue(store, stored_tick_node(store, market@, side.code(), tick).unwrap(), queue),
        remove_from_book_spec(store, market, side, tick, order_id) is Some,
    ensures
        ({
            let after = remove_from_book_spec(store, market, side, tick, order_id).unwrap();
            &&& stored_tick_node(after, market@, side.code(), tick) is Some
            &&& level_queue(
                after,
                stored_tick_node(after, market@, side.code(), tick).unwrap(),
                queue.remove(place),
            )
        }),
{
    reveal(remove_from_book_spec);
    lemma_key_facts();
    let node = stored_tick_node(store, market@, side.code(), tick).unwrap();
    let after = remove_from_book_spec(store, market, side, tick, order_id).unwrap();
    let before_links = links_of(store);
    let after_links = links_of(after);
    let links = stored_order_node(store, order_id@).unwrap();
    let prev_id = links.prev_order_id;
    let next_id = links.next_order_id;
    assert(link(before_links, queue[place]) == links);
    assert(prev_id@ == entry(queue, place - 1));
    assert(next_id@ == entry(queue, place + 1));
    if place > 0 {
        assert(queue[place - 1] != no_order());
        assert(queue[place - 1] != queue[place]);
    }
    if place + 1 < queue.len() {
        assert(queue[place + 1] != no_order());
        assert(queue[place] != queue[place + 1]);
    }
    if place > 0 && place + 1 < queue.len() {
        assert(queue[place - 1] != queue[place + 1]);
    }
    let before_prev = stored_order_node(store, prev_id@).unwrap();
    let joined_prev = OrderNode { prev_order_id: before_prev.prev_order_id, next_order_id: next_id };
    let s1 = if prev_id@ != NONE_ORDER_ID@ {
        store.insert(order_node_key(prev_id@), joined_prev.encoded())
    } else {
        store
    };
    let n1 = if prev_id@ != NONE_ORDER_ID@ {
        node
    } else {
        TickNode {
            prev_tick: node.prev_tick,
            next_tick: node.next_tick,
            head_order_id: next_id,
            tail_order_id: node.tail_order_id,
        }
    };
    let before_next = stored_order_node(s1, next_id@).unwrap();
    let joined_next = OrderNode { prev_order_id: prev_id, next_order_id: before_next.next_order_id };
    let s2 = if next_id@ != NONE_ORDER_ID@ {
        s1.insert(order_node_key(next_id@), joined_next.encoded())
    } else {
        s1
    };
    let n2 = if next_id@ != NONE_ORDER_ID@ {
        n1
    } else {
        TickNode {
            prev_tick: n1.prev_tick,
            next_tick: n1.next_tick,
            head_order_id: n1.head_order_id,
            tail_order_id: prev_id,
        }
    };
    let s3 = s2.insert(order_node_key(order_id@), empty_order_node().encoded());
    // what the links are after the three writes
    assert forall|id: Seq<u8>| #[trigger]
        stored_order_node(s3, id) == (if id == order_id@ {
            Some(empty_order_node())
        } else if id == next_id@ && next_id@ != NONE_ORDER_ID@ {
            Some(joined_next)
        } else if id == prev_id@ && prev_id@ != NONE_ORDER_ID@ {
            Some(joined_prev)
        } else {
            stored_order_node(store, id)
        }) by {
        lemma_links_written(s2, order_id@, empty_order_node(), id);
        lemma_links_written(s1, next_id@, joined_next, id);
        lemma_links_written(store, prev_id@, joined_prev, id);
    }
    lemma_links_written(store, prev_id@, joined_prev, next_id@);
    // the level writes leave the links alone
    assert forall|id: Seq<u8>| #[trigger]
        stored_order_node(after, id) == stored_order_node(s3, id) by {
        let k = record_key(Kind::OrderNode, id);
        if n2.head_order_id@ == NONE_ORDER_ID@ {
            crate::ledger::lemma_links_keep(
                s3,
                market,
                side,
                n2.prev_tick,
                n2.next_tick,
                n2.next_tick,
                n2.prev_tick,
                Kind::OrderNode,
            );
            let s4 = crate::engine::set_links_spec(
                s3,
                market,
                side,
                n2.prev_tick,
                n2.next_tick,
                n2.next_tick,
                n2.prev_tick,
            ).unwrap();
            assert(lookup(s4, k) == lookup(s3, k));
            assert(lookup(after, k) == lookup(s4, k));
        } else {
            assert(lookup(after, k) == lookup(s3, k));
        }
    }
    // what the level is afterwards
    let node_after = if n2.head_order_id@ == NONE_ORDER_ID@ {
        crate::engine::empty_tick_node()
    } else {
        n2
    };
    assert(stored_tick_node(after, market@, side.code(), tick) == Some(node_after)) by {
        let k = record_key(
            Kind::TickNode,
            market@ + seq![side.code()] + crate::bytes::be_bytes(crate::bytes::i32_bits(tick), 4),
        );
        crate::types::lemma_tick_node_decoded(node_after, node_after.encoded());
        assert(lookup(after, k) == Some(node_after.encoded()));
    }
    assert(link(after_links, queue[place]) == empty_order_node());
    if place > 0 {
        assert(link(after_links, queue[place - 1]) == joined_prev);
        assert(link(before_links, queue[place - 1]) == before_prev);
    }
    if place + 1 < queue.len() {
        assert(link(after_links, queue[place + 1]) == joined_next);
        assert(before_next == link(before_links, queue[place + 1]));
    }
    assert forall|i: int|
        0 <= i < queue.len() && i != place && i != place - 1 && i != place + 1 implies #[trigger] link(
        after_links,
        queue[i],
    ) == link(before_links, queue[i]) by {
        assert(queue[i] != queue[place]);
        if place > 0 {
            assert(queue[i] != queue[place - 1]);
        }
        if place + 1 < queue.len() {
            assert(queue[i] != queue[place + 1]);
        }
        assert(queue[i] != no_order());
    }
    lemma_remove_queue(
        before_links,
        after_links,
        node.head_order_id@,
        node.tail_order_id@,
        queue,
        place,
    );
    assert(queue.last() == queue[queue.len() - 1]);
}

} // verus!
