use crate::book::lock_funds_spec;
use crate::book::release_funds_spec;
use crate::book::lock_cause;
use crate::book::release_cause;
use crate::book::u256;
use crate::book::FillTerms;
use crate::book::adjust_cause;
use crate::book::adjusted;
use crate::book::fill_terms_spec;
use crate::book::totals_add;
use crate::bytes::be_bytes;
use crate::constants::NONE_ORDER_ID;
use crate::constants::NONE_TICK;
use crate::engine::best_of;
use crate::engine::best_with;
use crate::engine::certain_to_rest;
use crate::engine::closed_order;
use crate::engine::new_order_of;
use crate::engine::rules_admit;
use crate::engine::NewOrder;
use crate::input::Message;
use crate::input::SignedMessage;
use crate::verify::signed_by;
use crate::engine::best_without;
use crate::engine::crosses;
use crate::engine::empty_order_node;
use crate::engine::empty_tick_node;
use crate::engine::Taker;
use crate::types::FeeTotal;
use crate::types::OrderStatus;
use crate::types::TimeInForce;
use crate::types::TradeRecord;
use crate::verify::price_of;
use crate::engine::lock_amount;
use crate::engine::lock_asset;
use crate::input::Rules;
use crate::types::Side;
use crate::wide::two_256;
use crate::errors::CoreError;
use crate::state::balance_key;
use crate::state::balance_of;
use crate::state::fee_vault_key;
use crate::state::fee_vault_of;
use crate::state::market_best_key;
use crate::state::market_best_of;
use crate::state::nonce_key;
use crate::state::nonce_of;
use crate::state::order_key;
use crate::state::order_node_key;
use crate::state::order_node_of;
use crate::state::order_of;
use crate::state::tick_node_key;
use crate::state::tick_node_of;
use crate::state::RecordModel;
use crate::state::RecordingState;
use crate::state::StateAccess;
use crate::types::Balance;
use crate::types::FeeVault;
use crate::types::MarketBest;
use crate::types::Order;
use crate::types::OrderNode;
use crate::types::TickNode;
use vstd::prelude::*;

verus! {

/// Why a step failed, by the kind of the error: stored bytes were
/// malformed; a rule was broken; a number did not fit; the signature was
/// not the sender's; or the state could not be read or written.
pub enum Cause {
    Decode,
    Invalid,
    Math,
    Signature,
    State,
}

/// Whether the error `e` is of the kind that a failure of `cause` gives.
pub open spec fn has_cause(e: CoreError, cause: Cause) -> bool {
    match cause {
        Cause::Decode => e is Decode,
        Cause::Invalid => e is Invalid,
        Cause::Math => e is Math,
        Cause::Signature => e is Signature,
        Cause::State => e is State,
    }
}

/// Whether the result `r` of a call is the outcome `run` of its steps:
/// the same value on success, and an error of the cause on failure.
pub open spec fn outcome<T>(r: Result<T, CoreError>, run: Result<T, Cause>) -> bool {
    match r {
        Ok(v) => run == Ok::<T, Cause>(v),
        Err(e) => run is Err && has_cause(e, run->Err_0),
    }
}

/// Reading the balance: the accessor afterwards, and what was read; a
/// failure of the accessor is handed on, and malformed bytes are
/// `Decode`.
pub open spec fn get_balance_run<S: StateAccess>(m: S::Model, account: Seq<u8>, asset: Seq<u8>) -> (S::Model, Result<Balance, Cause>) {
    let step = S::read_step(m, balance_key(account, asset));
    (
        step.0,
        match step.1 {
            Ok(value) => match balance_of(value) {
                Some(v) => Ok(v),
                None => Err(Cause::Decode),
            },
            Err(c) => Err(c),
        },
    )
}

/// Storing the balance: the accessor afterwards, and whether the write
/// succeeded.
pub open spec fn set_balance_run<S: StateAccess>(m: S::Model, account: Seq<u8>, asset: Seq<u8>, value: Balance) -> (
    S::Model,
    Result<(), Cause>,
) {
    S::write_step(m, balance_key(account, asset), Some(value.encoded()))
}

/// Reading the nonce: the accessor afterwards, and what was read; a
/// failure of the accessor is handed on, and malformed bytes are
/// `Decode`.
pub open spec fn get_nonce_run<S: StateAccess>(m: S::Model, account: Seq<u8>) -> (S::Model, Result<u64, Cause>) {
    let step = S::read_step(m, nonce_key(account));
    (
        step.0,
        match step.1 {
            Ok(value) => match nonce_of(value) {
                Some(v) => Ok(v),
                None => Err(Cause::Decode),
            },
            Err(c) => Err(c),
        },
    )
}

/// Storing the nonce: the accessor afterwards, and whether the write
/// succeeded.
pub open spec fn set_nonce_run<S: StateAccess>(m: S::Model, account: Seq<u8>, nonce: u64) -> (
    S::Model,
    Result<(), Cause>,
) {
    S::write_step(m, nonce_key(account), Some(be_bytes(nonce as nat, 8)))
}

/// Reading the order: the accessor afterwards, and what was read; a
/// failure of the accessor is handed on, and malformed bytes are
/// `Decode`.
pub open spec fn get_order_run<S: StateAccess>(m: S::Model, order_id: Seq<u8>) -> (S::Model, Result<Option<Order>, Cause>) {
    let step = S::read_step(m, order_key(order_id));
    (
        step.0,
        match step.1 {
            Ok(value) => match order_of(value) {
                Some(v) => Ok(v),
                None => Err(Cause::Decode),
            },
            Err(c) => Err(c),
        },
    )
}

/// Storing the order: the accessor afterwards, and whether the write
/// succeeded.
pub open spec fn set_order_run<S: StateAccess>(m: S::Model, order_id: Seq<u8>, value: Order) -> (
    S::Model,
    Result<(), Cause>,
) {
    S::write_step(m, order_key(order_id), Some(value.encoded()))
}

/// Reading the order node: the accessor afterwards, and what was read; a
/// failure of the accessor is handed on, and malformed bytes are
/// `Decode`.
pub open spec fn get_order_node_run<S: StateAccess>(m: S::Model, order_id: Seq<u8>) -> (S::Model, Result<OrderNode, Cause>) {
    let step = S::read_step(m, order_node_key(order_id));
    (
        step.0,
        match step.1 {
            Ok(value) => match order_node_of(value) {
                Some(v) => Ok(v),
                None => Err(Cause::Decode),
            },
            Err(c) => Err(c),
        },
    )
}

/// Storing the order node: the accessor afterwards, and whether the write
/// succeeded.
pub open spec fn set_order_node_run<S: StateAccess>(m: S::Model, order_id: Seq<u8>, value: OrderNode) -> (
    S::Model,
    Result<(), Cause>,
) {
    S::write_step(m, order_node_key(order_id), Some(value.encoded()))
}

/// Reading the tick node: the accessor afterwards, and what was read; a
/// failure of the accessor is handed on, and malformed bytes are
/// `Decode`.
pub open spec fn get_tick_node_run<S: StateAccess>(m: S::Model, market: Seq<u8>, side: u8, tick: i32) -> (S::Model, Result<TickNode, Cause>) {
    let step = S::read_step(m, tick_node_key(market, side, tick));
    (
        step.0,
        match step.1 {
            Ok(value) => match tick_node_of(value) {
                Some(v) => Ok(v),
                None => Err(Cause::Decode),
            },
            Err(c) => Err(c),
        },
    )
}

/// Storing the tick node: the accessor afterwards, and whether the write
/// succeeded.
pub open spec fn set_tick_node_run<S: StateAccess>(m: S::Model, market: Seq<u8>, side: u8, tick: i32, value: TickNode) -> (
    S::Model,
    Result<(), Cause>,
) {
    S::write_step(m, tick_node_key(market, side, tick), Some(value.encoded()))
}

/// Reading the market best: the accessor afterwards, and what was read; a
/// failure of the accessor is handed on, and malformed bytes are
/// `Decode`.
pub open spec fn get_market_best_run<S: StateAccess>(m: S::Model, market: Seq<u8>) -> (S::Model, Result<MarketBest, Cause>) {
    let step = S::read_step(m, market_best_key(market));
    (
        step.0,
        match step.1 {
            Ok(value) => match market_best_of(value) {
                Some(v) => Ok(v),
                None => Err(Cause::Decode),
            },
            Err(c) => Err(c),
        },
    )
}

/// Storing the market best: the accessor afterwards, and whether the write
/// succeeded.
pub open spec fn set_market_best_run<S: StateAccess>(m: S::Model, market: Seq<u8>, value: MarketBest) -> (
    S::Model,
    Result<(), Cause>,
) {
    S::write_step(m, market_best_key(market), Some(value.encoded()))
}

/// Reading the fee vault: the accessor afterwards, and what was read; a
/// failure of the accessor is handed on, and malformed bytes are
/// `Decode`.
pub open spec fn get_fee_vault_run<S: StateAccess>(m: S::Model, asset: Seq<u8>) -> (S::Model, Result<FeeVault, Cause>) {
    let step = S::read_step(m, fee_vault_key(asset));
    (
        step.0,
        match step.1 {
            Ok(value) => match fee_vault_of(value) {
                Some(v) => Ok(v),
                None => Err(Cause::Decode),
            },
            Err(c) => Err(c),
        },
    )
}

/// Storing the fee vault: the accessor afterwards, and whether the write
/// succeeded.
pub open spec fn set_fee_vault_run<S: StateAccess>(m: S::Model, asset: Seq<u8>, value: FeeVault) -> (
    S::Model,
    Result<(), Cause>,
) {
    S::write_step(m, fee_vault_key(asset), Some(value.encoded()))
}

/// Locking the taker's funds, step by step: both balances of the trader
/// are read, the amount is computed, and the balance in the locked asset
/// is rewritten. The accessor afterwards, and the outcome.
pub open spec fn lock_taker_run<S: StateAccess>(
    m: S::Model,
    trader: [u8; 20],
    side: Side,
    price: nat,
    qty: nat,
    rules: Rules,
) -> (S::Model, Result<(), Cause>) {
    let quote = get_balance_run::<S>(m, trader@, rules.quote_asset_id@);
    match quote.1 {
        Err(c) => (quote.0, Err(c)),
        Ok(in_quote) => {
            let base = get_balance_run::<S>(quote.0, trader@, rules.base_asset_id@);
            match base.1 {
                Err(c) => (base.0, Err(c)),
                Ok(in_base) => {
                    let held = match side {
                        Side::Buy => in_quote,
                        Side::Sell => in_base,
                    };
                    match lock_amount(side, price, qty, rules) {
                        Some(amount) => match lock_funds_spec(held, amount, rules.max_balance@) {
                            Some(after) => set_balance_run::<S>(
                                base.0,
                                trader@,
                                lock_asset(side, rules)@,
                                after,
                            ),
                            None => (base.0, Err(lock_cause(held, amount))),
                        },
                        None => (base.0, Err(Cause::Math)),
                    }
                },
            }
        },
    }
}

/// Releasing locked funds, step by step: the amount is computed, the
/// balance in the locked asset is read and rewritten.
pub open spec fn release_run<S: StateAccess>(
    m: S::Model,
    trader: [u8; 20],
    side: Side,
    remaining: nat,
    price: nat,
    rules: Rules,
) -> (S::Model, Result<(), Cause>) {
    match lock_amount(side, price, remaining, rules) {
        Some(amount) => {
            let held = get_balance_run::<S>(m, trader@, lock_asset(side, rules)@);
            match held.1 {
                Ok(balance) => match release_funds_spec(balance, amount, rules.max_balance@) {
                    Some(after) => set_balance_run::<S>(
                        held.0,
                        trader@,
                        lock_asset(side, rules)@,
                        after,
                    ),
                    None => (held.0, Err(release_cause(balance, amount))),
                },
                Err(c) => (held.0, Err(c)),
            }
        },
        None => (m, Err(Cause::Math)),
    }
}

/// One update of a fill, step by step: the balance is read, updated and
/// written.
pub open spec fn adjust_run<S: StateAccess>(
    m: S::Model,
    account: [u8; 20],
    asset: [u8; 32],
    taken: nat,
    given: nat,
    max: nat,
) -> (S::Model, Result<(), Cause>) {
    let read = get_balance_run::<S>(m, account@, asset@);
    match read.1 {
        Err(c) => (read.0, Err(c)),
        Ok(b) => match adjusted(b, taken, given, max) {
            Some(after) => set_balance_run::<S>(read.0, account@, asset@, after),
            None => (read.0, Err(adjust_cause(b, taken, given))),
        },
    }
}

/// One more update of a fill, where the updates before it succeeded.
pub open spec fn then_adjust_run<S: StateAccess>(
    before: (S::Model, Result<(), Cause>),
    account: [u8; 20],
    asset: [u8; 32],
    taken: nat,
    given: nat,
    max: nat,
) -> (S::Model, Result<(), Cause>) {
    if before.1 is Err {
        before
    } else {
        adjust_run::<S>(before.0, account, asset, taken, given, max)
    }
}

/// Settling a fill, step by step: four updates, one after another, each
/// reading the balance as it then stands; the taker's two first, and of
/// each pair the locked part first. An amount and fee that do not fit
/// together in 256 bits, and a fee above the amount on a sale, are
/// `Math` before anything is read.
pub open spec fn settle_fill_run<S: StateAccess>(
    m: S::Model,
    side: Side,
    trader: [u8; 20],
    maker: [u8; 20],
    rules: Rules,
    terms: FillTerms,
) -> (S::Model, Result<(), Cause>) {
    let quote = rules.quote_asset_id;
    let base = rules.base_asset_id;
    let max = rules.max_balance@;
    let fill = terms.fill_qty@;
    let amount = terms.quote_amt@;
    let fee = terms.fee@;
    match side {
        Side::Buy => if amount + fee >= two_256() {
            (m, Err(Cause::Math))
        } else {
            then_adjust_run::<S>(
                then_adjust_run::<S>(
                    then_adjust_run::<S>(
                        adjust_run::<S>(m, trader, quote, amount + fee, 0, max),
                        trader,
                        base,
                        0,
                        fill,
                        max,
                    ),
                    maker,
                    base,
                    fill,
                    0,
                    max,
                ),
                maker,
                quote,
                0,
                amount,
                max,
            )
        },
        Side::Sell => if fee > amount {
            (m, Err(Cause::Math))
        } else {
            then_adjust_run::<S>(
                then_adjust_run::<S>(
                    then_adjust_run::<S>(
                        adjust_run::<S>(m, trader, base, fill, 0, max),
                        trader,
                        quote,
                        0,
                        (amount - fee) as nat,
                        max,
                    ),
                    maker,
                    quote,
                    amount,
                    0,
                    max,
                ),
                maker,
                base,
                0,
                fill,
                max,
            )
        },
    }
}

/// Adding a fee to the vault of its asset, step by step: the vault is
/// read and rewritten; `Math` when the total would not fit in 256 bits.
pub open spec fn collect_fee_run<S: StateAccess>(m: S::Model, asset: [u8; 32], fee: nat) -> (
    S::Model,
    Result<(), Cause>,
) {
    let vault = get_fee_vault_run::<S>(m, asset@);
    match vault.1 {
        Ok(v) => if v.total@ + fee >= two_256() {
            (vault.0, Err(Cause::Math))
        } else {
            set_fee_vault_run::<S>(vault.0, asset@, FeeVault { total: u256(v.total@ + fee) })
        },
        Err(c) => (vault.0, Err(c)),
    }
}

/// Taking the head out of the queue of a level, step by step: the links
/// of the head are read; the order after it, if there is one, is read
/// and written without a link back; and the links of the head are
/// cleared. The accessor afterwards, and the level in hand.
pub open spec fn pop_head_run<S: StateAccess>(m: S::Model, node: TickNode, maker_id: [u8; 32]) -> (
    S::Model,
    Result<TickNode, Cause>,
) {
    let head = get_order_node_run::<S>(m, maker_id@);
    match head.1 {
        Err(c) => (head.0, Err(c)),
        Ok(links) => {
            let next_id = links.next_order_id;
            let unlinked: (S::Model, Result<TickNode, Cause>) = if next_id@ == NONE_ORDER_ID@ {
                (
                    head.0,
                    Ok(
                        TickNode {
                            prev_tick: node.prev_tick,
                            next_tick: node.next_tick,
                            head_order_id: next_id,
                            tail_order_id: NONE_ORDER_ID,
                        },
                    ),
                )
            } else {
                let after = get_order_node_run::<S>(head.0, next_id@);
                match after.1 {
                    Err(c) => (after.0, Err(c)),
                    Ok(next_links) => {
                        let w = set_order_node_run::<S>(
                            after.0,
                            next_id@,
                            OrderNode {
                                prev_order_id: NONE_ORDER_ID,
                                next_order_id: next_links.next_order_id,
                            },
                        );
                        (
                            w.0,
                            match w.1 {
                                Err(c) => Err(c),
                                Ok(_) => Ok(
                                    TickNode {
                                        prev_tick: node.prev_tick,
                                        next_tick: node.next_tick,
                                        head_order_id: next_id,
                                        tail_order_id: node.tail_order_id,
                                    },
                                ),
                            },
                        )
                    },
                }
            };
            match unlinked.1 {
                Err(c) => (unlinked.0, Err(c)),
                Ok(node1) => {
                    let cleared = set_order_node_run::<S>(
                        unlinked.0,
                        maker_id@,
                        empty_order_node(),
                    );
                    (
                        cleared.0,
                        match cleared.1 {
                            Err(c) => Err(c),
                            Ok(_) => Ok(node1),
                        },
                    )
                },
            }
        },
    }
}

/// What one fill leaves in hand.
pub struct Filled {
    pub node: TickNode,
    pub remaining: nat,
    pub totals: Seq<FeeTotal>,
    pub trade: TradeRecord,
}

/// The fill of the order at the head of a level, step by step: the
/// maker's order is read and checked, the terms are computed, the fill
/// is settled, the fee is added to the totals and collected, the maker's
/// order is rewritten, and a maker with nothing left leaves the queue.
/// A maker that is missing, not open or on the taker's side is
/// `Invalid`; terms or totals that do not fit are `Math`.
#[verifier::opaque]
pub open spec fn fill_maker_run<S: StateAccess>(
    m: S::Model,
    taker: Taker,
    rules: Rules,
    tick_price: nat,
    node: TickNode,
    remaining: nat,
    totals: Seq<FeeTotal>,
) -> (S::Model, Result<Filled, Cause>) {
    let maker_id = node.head_order_id;
    let read = get_order_run::<S>(m, maker_id@);
    match read.1 {
        Err(c) => (read.0, Err(c)),
        Ok(None) => (read.0, Err(Cause::Invalid)),
        Ok(Some(maker)) => {
            if maker.status != OrderStatus::Open || maker.side == taker.side {
                (read.0, Err(Cause::Invalid))
            } else {
                match fill_terms_spec(remaining, maker.qty_remaining@, tick_price, rules) {
                    None => (read.0, Err(Cause::Math)),
                    Some(terms) => {
                        let settled = settle_fill_run::<S>(
                            read.0,
                            taker.side,
                            taker.trader,
                            maker.owner,
                            rules,
                            terms,
                        );
                        match settled.1 {
                            Err(c) => (settled.0, Err(c)),
                            Ok(_) => match totals_add(totals, rules.quote_asset_id, terms.fee@) {
                                None => (settled.0, Err(Cause::Math)),
                                Some(totals1) => {
                                    let collected = collect_fee_run::<S>(
                                        settled.0,
                                        rules.quote_asset_id,
                                        terms.fee@,
                                    );
                                    match collected.1 {
                                        Err(c) => (collected.0, Err(c)),
                                        Ok(_) => fill_close_run::<S>(
                                            collected.0,
                                            taker,
                                            node,
                                            remaining,
                                            maker,
                                            terms,
                                            totals1,
                                        ),
                                    }
                                },
                            },
                        }
                    },
                }
            }
        },
    }
}

/// The end of a fill, step by step: the maker's order is rewritten with
/// what is left of it, and a maker with nothing left leaves the queue.
pub open spec fn fill_close_run<S: StateAccess>(
    m: S::Model,
    taker: Taker,
    node: TickNode,
    remaining: nat,
    maker: Order,
    terms: FillTerms,
    totals1: Seq<FeeTotal>,
) -> (S::Model, Result<Filled, Cause>) {
    let maker_id = node.head_order_id;
    let left = (maker.qty_remaining@ - terms.fill_qty@) as nat;
    let maker1 = Order {
        owner: maker.owner,
        side: maker.side,
        tick: maker.tick,
        qty_remaining: u256(left),
        tif: maker.tif,
        status: if left == 0 {
            OrderStatus::Filled
        } else {
            OrderStatus::Open
        },
    };
    let trade = TradeRecord {
        market_id: taker.market_id,
        maker_order_id: maker_id,
        taker_order_id: taker.order_id,
        maker: maker.owner,
        taker: taker.trader,
        side_taker: taker.side,
        maker_tick: maker.tick,
        qty_base: terms.fill_qty,
        quote_amt: terms.quote_amt,
        taker_fee_quote: terms.fee,
    };
    let rest = (remaining - terms.fill_qty@) as nat;
    let stored = set_order_run::<S>(m, maker_id@, maker1);
    match stored.1 {
        Err(c) => (stored.0, Err(c)),
        Ok(_) => if left == 0 {
            let popped = pop_head_run::<S>(stored.0, node, maker_id);
            (
                popped.0,
                match popped.1 {
                    Err(c) => Err(c),
                    Ok(node1) => Ok(
                        Filled { node: node1, remaining: rest, totals: totals1, trade },
                    ),
                },
            )
        } else {
            (stored.0, Ok(Filled { node, remaining: rest, totals: totals1, trade }))
        },
    }
}

/// Where the matching of an order stands, apart from the accessor.
pub struct Walk {
    pub remaining: nat,
    pub matches: nat,
    pub best: MarketBest,
    pub totals: Seq<FeeTotal>,
    pub trades: Seq<TradeRecord>,
}

/// The matching at one level, step by step: as long as the level has a
/// head and the taker has quantity left, the head is filled; another
/// fill beyond the number allowed is `Invalid`.
#[verifier::opaque]
pub open spec fn match_tick_run<S: StateAccess>(
    m: S::Model,
    w: Walk,
    node: TickNode,
    taker: Taker,
    rules: Rules,
    tick_price: nat,
) -> (S::Model, Result<(Walk, TickNode), Cause>)
    decreases rules.max_matches_per_order - w.matches,
{
    if node.head_order_id@ == NONE_ORDER_ID@ || w.remaining == 0 {
        (m, Ok((w, node)))
    } else if w.matches >= rules.max_matches_per_order {
        (m, Err(Cause::Invalid))
    } else {
        let filled = fill_maker_run::<S>(m, taker, rules, tick_price, node, w.remaining, w.totals);
        match filled.1 {
            Ok(f) => match_tick_run::<S>(
                filled.0,
                Walk {
                    remaining: f.remaining,
                    matches: w.matches + 1,
                    best: w.best,
                    totals: f.totals,
                    trades: w.trades.push(f.trade),
                },
                f.node,
                taker,
                rules,
                tick_price,
            ),
            Err(c) => (filled.0, Err(c)),
        }
    }
}

/// One neighbour of a level pointed elsewhere: the level is read and
/// rewritten with the links given.
pub open spec fn relink_run<S: StateAccess>(
    m: S::Model,
    market: [u8; 32],
    side: Side,
    tick: i32,
    forward: bool,
    target: i32,
) -> (S::Model, Result<(), Cause>) {
    let read = get_tick_node_run::<S>(m, market@, side.code(), tick);
    match read.1 {
        Ok(p) => set_tick_node_run::<S>(
            read.0,
            market@,
            side.code(),
            tick,
            TickNode {
                prev_tick: if forward {
                    p.prev_tick
                } else {
                    target
                },
                next_tick: if forward {
                    target
                } else {
                    p.next_tick
                },
                head_order_id: p.head_order_id,
                tail_order_id: p.tail_order_id,
            },
        ),
        Err(c) => (read.0, Err(c)),
    }
}

/// Pointing the two neighbours of a level elsewhere, step by step: the
/// level before, if there is one, is read and rewritten, and then the
/// level after.
pub open spec fn set_links_run<S: StateAccess>(
    m: S::Model,
    market: [u8; 32],
    side: Side,
    prev: i32,
    next: i32,
    after_prev: i32,
    before_next: i32,
) -> (S::Model, Result<(), Cause>) {
    let first = if prev != NONE_TICK {
        relink_run::<S>(m, market, side, prev, true, after_prev)
    } else {
        (m, Ok(()))
    };
    if first.1 is Err {
        first
    } else if next != NONE_TICK {
        relink_run::<S>(first.0, market, side, next, false, before_next)
    } else {
        first
    }
}

/// Closing a level that was matched, step by step: an emptied level is
/// taken out of its list and stored empty, and the best ticks are
/// stored; a level with orders left is stored back. The accessor
/// afterwards, and the best ticks.
pub open spec fn close_level_run<S: StateAccess>(
    m: S::Model,
    market: [u8; 32],
    book: Side,
    current: i32,
    node: TickNode,
    best: MarketBest,
) -> (S::Model, Result<MarketBest, Cause>) {
    if node.head_order_id@ == NONE_ORDER_ID@ {
        let joined = set_links_run::<S>(
            m,
            market,
            book,
            node.prev_tick,
            node.next_tick,
            node.next_tick,
            node.prev_tick,
        );
        let moved = best_without(best, book, current, node.next_tick);
        match joined.1 {
            Err(c) => (joined.0, Err(c)),
            Ok(_) => {
                let emptied = set_tick_node_run::<S>(
                    joined.0,
                    market@,
                    book.code(),
                    current,
                    empty_tick_node(),
                );
                match emptied.1 {
                    Err(c) => (emptied.0, Err(c)),
                    Ok(_) => {
                        let stored = set_market_best_run::<S>(emptied.0, market@, moved);
                        (
                            stored.0,
                            match stored.1 {
                                Err(c) => Err(c),
                                Ok(_) => Ok(moved),
                            },
                        )
                    },
                }
            },
        }
    } else {
        let stored = set_tick_node_run::<S>(m, market@, book.code(), current, node);
        (
            stored.0,
            match stored.1 {
                Err(c) => Err(c),
                Ok(_) => Ok(best),
            },
        )
    }
}

/// Why the price of a tick cannot be computed: `Invalid` for a negative
/// tick, `Math` for a price that does not fit in 256 bits.
pub open spec fn price_cause(tick: i32) -> Cause {
    if tick < 0 {
        Cause::Invalid
    } else {
        Cause::Math
    }
}

/// One step of the walk over the other side's levels, step by step, and
/// whether the walk goes on after it: the best level is read and
/// matched, and then closed.
#[verifier::opaque]
pub open spec fn match_step_run<S: StateAccess>(m: S::Model, w: Walk, taker: Taker, rules: Rules) -> (
    S::Model,
    Result<(Walk, bool), Cause>,
) {
    let book = taker.side.other();
    let current = best_of(w.best, book);
    if current == NONE_TICK {
        (m, Ok((w, false)))
    } else {
        match price_of(current, rules.tick_size@) {
            None => (m, Err(price_cause(current))),
            Some(tick_price) => {
                if !crosses(taker.side, tick_price, taker.limit_price@) || w.remaining == 0 {
                    (m, Ok((w, false)))
                } else {
                    let read = get_tick_node_run::<S>(m, taker.market_id@, book.code(), current);
                    match read.1 {
                        Err(c) => (read.0, Err(c)),
                        Ok(node) => {
                            let matched = match_tick_run::<S>(
                                read.0,
                                w,
                                node,
                                taker,
                                rules,
                                tick_price,
                            );
                            match matched.1 {
                                Err(c) => (matched.0, Err(c)),
                                Ok((w1, node1)) => {
                                    let closed = close_level_run::<S>(
                                        matched.0,
                                        taker.market_id,
                                        book,
                                        current,
                                        node1,
                                        w.best,
                                    );
                                    (
                                        closed.0,
                                        match closed.1 {
                                            Err(c) => Err(c),
                                            Ok(moved) => Ok(
                                                (
                                                    Walk {
                                                        remaining: w1.remaining,
                                                        matches: w1.matches,
                                                        best: moved,
                                                        totals: w1.totals,
                                                        trades: w1.trades,
                                                    },
                                                    w1.remaining != 0,
                                                ),
                                            ),
                                        },
                                    )
                                },
                            }
                        },
                    }
                }
            },
        }
    }
}

/// The walk over the other side's levels, step by step: steps are taken
/// until one ends the walk; a walk of more than `fuel` further steps is
/// `Invalid`.
pub open spec fn match_orders_run<S: StateAccess>(
    m: S::Model,
    w: Walk,
    taker: Taker,
    rules: Rules,
    fuel: nat,
) -> (S::Model, Result<Walk, Cause>)
    decreases fuel,
{
    let stepped = match_step_run::<S>(m, w, taker, rules);
    match stepped.1 {
        Ok((w1, more)) => if !more {
            (stepped.0, Ok(w1))
        } else if fuel == 0 {
            (stepped.0, Err(Cause::Invalid))
        } else {
            match_orders_run::<S>(stepped.0, w1, taker, rules, (fuel - 1) as nat)
        },
        Err(c) => (stepped.0, Err(c)),
    }
}

/// Whether the level before or after a new level, read as `node`, fits
/// the hint for the other side and the order of the side: it has orders,
/// it points at `other`, and it lies on the right side of the new level.
pub open spec fn neighbour_fits(node: TickNode, points_at: i32, other: i32, in_order: bool) -> bool {
    node.head_order_id@ != NONE_ORDER_ID@ && points_at == other && in_order
}

/// One hinted neighbour of a new level, read and checked: `Invalid` when
/// it does not fit.
pub open spec fn hint_run<S: StateAccess>(
    m: S::Model,
    market: [u8; 32],
    side: Side,
    hinted: i32,
    before: bool,
    other: i32,
    in_order: bool,
) -> (S::Model, Result<(), Cause>) {
    let read = get_tick_node_run::<S>(m, market@, side.code(), hinted);
    (
        read.0,
        match read.1 {
            Ok(node) => if neighbour_fits(
                node,
                if before {
                    node.next_tick
                } else {
                    node.prev_tick
                },
                other,
                in_order,
            ) {
                Ok(())
            } else {
                Err(Cause::Invalid)
            },
            Err(c) => Err(c),
        },
    )
}

/// Checking the hints for a new level, step by step: the level before,
/// if one is hinted, is read and checked, and else the best tick of the
/// side; then the level after, if one is hinted. Hints that do not fit
/// are `Invalid`.
pub open spec fn verify_tick_hints_run<S: StateAccess>(
    m: S::Model,
    market: [u8; 32],
    side: Side,
    tick: i32,
    prev: i32,
    next: i32,
    best: MarketBest,
) -> (S::Model, Result<(), Cause>) {
    let first = if prev != NONE_TICK {
        hint_run::<S>(
            m,
            market,
            side,
            prev,
            true,
            next,
            match side {
                Side::Buy => prev > tick,
                Side::Sell => prev < tick,
            },
        )
    } else if best_of(best, side) == next || best_of(best, side) == NONE_TICK {
        (m, Ok(()))
    } else {
        (m, Err(Cause::Invalid))
    };
    if first.1 is Err {
        first
    } else if next != NONE_TICK {
        hint_run::<S>(
            first.0,
            market,
            side,
            next,
            false,
            prev,
            match side {
                Side::Buy => next < tick,
                Side::Sell => next > tick,
            },
        )
    } else {
        first
    }
}

/// Opening a new level for an order, step by step: the hints are
/// checked, the neighbours are pointed at the level, and the best ticks
/// are stored. The accessor afterwards, and the level and the best
/// ticks.
pub open spec fn open_level_run<S: StateAccess>(
    m: S::Model,
    market: [u8; 32],
    order_id: [u8; 32],
    side: Side,
    tick: i32,
    prev_hint: i32,
    next_hint: i32,
    best: MarketBest,
) -> (S::Model, Result<(TickNode, MarketBest), Cause>) {
    let checked = verify_tick_hints_run::<S>(m, market, side, tick, prev_hint, next_hint, best);
    match checked.1 {
        Err(c) => (checked.0, Err(c)),
        Ok(_) => {
            let joined = set_links_run::<S>(
                checked.0,
                market,
                side,
                prev_hint,
                next_hint,
                tick,
                tick,
            );
            match joined.1 {
                Err(c) => (joined.0, Err(c)),
                Ok(_) => {
                    let moved = best_with(best, side, tick);
                    let stored = set_market_best_run::<S>(joined.0, market@, moved);
                    (
                        stored.0,
                        match stored.1 {
                            Err(c) => Err(c),
                            Ok(_) => Ok(
                                (
                                    TickNode {
                                        prev_tick: prev_hint,
                                        next_tick: next_hint,
                                        head_order_id: order_id,
                                        tail_order_id: order_id,
                                    },
                                    moved,
                                ),
                            ),
                        },
                    )
                },
            }
        },
    }
}

/// Joining the queue of a level that has orders, step by step: the tail
/// is read and pointed at the order.
pub open spec fn join_level_run<S: StateAccess>(
    m: S::Model,
    order_id: [u8; 32],
    node: TickNode,
    best: MarketBest,
) -> (S::Model, Result<(TickNode, MarketBest), Cause>) {
    let tail_id = node.tail_order_id;
    let node2 = TickNode {
        prev_tick: node.prev_tick,
        next_tick: node.next_tick,
        head_order_id: node.head_order_id,
        tail_order_id: order_id,
    };
    if tail_id@ != NONE_ORDER_ID@ {
        let tail = get_order_node_run::<S>(m, tail_id@);
        match tail.1 {
            Err(c) => (tail.0, Err(c)),
            Ok(t) => {
                let pointed = set_order_node_run::<S>(
                    tail.0,
                    tail_id@,
                    OrderNode { prev_order_id: t.prev_order_id, next_order_id: order_id },
                );
                (
                    pointed.0,
                    match pointed.1 {
                        Err(c) => Err(c),
                        Ok(_) => Ok((node2, best)),
                    },
                )
            },
        }
    } else {
        (m, Ok((node2, best)))
    }
}

/// An order coming to rest, step by step. The level is read. A level
/// without orders is opened; the queue of a level with orders is joined.
/// Then the level, the order and its queue links are stored. The
/// accessor afterwards, and the best ticks.
#[verifier::opaque]
pub open spec fn place_resting_run<S: StateAccess>(
    m: S::Model,
    market: [u8; 32],
    order_id: [u8; 32],
    trader: [u8; 20],
    side: Side,
    tick: i32,
    qty: nat,
    tif: TimeInForce,
    prev_hint: i32,
    next_hint: i32,
    best: MarketBest,
) -> (S::Model, Result<MarketBest, Cause>) {
    let read = get_tick_node_run::<S>(m, market@, side.code(), tick);
    match read.1 {
        Err(c) => (read.0, Err(c)),
        Ok(node) => {
            let active = node.head_order_id@ != NONE_ORDER_ID@;
            let old_tail = if active {
                node.tail_order_id
            } else {
                NONE_ORDER_ID
            };
            let linked = if !active {
                open_level_run::<S>(read.0, market, order_id, side, tick, prev_hint, next_hint, best)
            } else {
                join_level_run::<S>(read.0, order_id, node, best)
            };
            match linked.1 {
                Err(c) => (linked.0, Err(c)),
                Ok((node2, best2)) => {
                    let level = set_tick_node_run::<S>(linked.0, market@, side.code(), tick, node2);
                    match level.1 {
                        Err(c) => (level.0, Err(c)),
                        Ok(_) => {
                            let stored = set_order_run::<S>(
                                level.0,
                                order_id@,
                                Order {
                                    owner: trader,
                                    side,
                                    tick,
                                    qty_remaining: u256(qty),
                                    tif,
                                    status: OrderStatus::Open,
                                },
                            );
                            match stored.1 {
                                Err(c) => (stored.0, Err(c)),
                                Ok(_) => {
                                    let links = set_order_node_run::<S>(
                                        stored.0,
                                        order_id@,
                                        OrderNode {
                                            prev_order_id: old_tail,
                                            next_order_id: NONE_ORDER_ID,
                                        },
                                    );
                                    (
                                        links.0,
                                        match links.1 {
                                            Err(c) => Err(c),
                                            Ok(_) => Ok(best2),
                                        },
                                    )
                                },
                            }
                        },
                    }
                },
            }
        },
    }
}

/// One neighbour of an order in its queue pointed past the order: it is
/// read and rewritten.
pub open spec fn bypass_run<S: StateAccess>(
    m: S::Model,
    id: [u8; 32],
    forward: bool,
    target: [u8; 32],
) -> (S::Model, Result<(), Cause>) {
    let read = get_order_node_run::<S>(m, id@);
    match read.1 {
        Ok(p) => set_order_node_run::<S>(
            read.0,
            id@,
            OrderNode {
                prev_order_id: if forward {
                    p.prev_order_id
                } else {
                    target
                },
                next_order_id: if forward {
                    target
                } else {
                    p.next_order_id
                },
            },
        ),
        Err(c) => (read.0, Err(c)),
    }
}

/// Taking a level without orders out of its list after an order has
/// left, step by step: the neighbours are joined, the best ticks are
/// read, the level is stored empty, and the best ticks are stored.
pub open spec fn drop_level_run<S: StateAccess>(
    m: S::Model,
    market: [u8; 32],
    side: Side,
    tick: i32,
    node: TickNode,
) -> (S::Model, Result<(), Cause>) {
    let joined = set_links_run::<S>(
        m,
        market,
        side,
        node.prev_tick,
        node.next_tick,
        node.next_tick,
        node.prev_tick,
    );
    if joined.1 is Err {
        joined
    } else {
        let best = get_market_best_run::<S>(joined.0, market@);
        match best.1 {
            Err(c) => (best.0, Err(c)),
            Ok(b) => {
                let emptied = set_tick_node_run::<S>(
                    best.0,
                    market@,
                    side.code(),
                    tick,
                    empty_tick_node(),
                );
                if emptied.1 is Err {
                    emptied
                } else {
                    set_market_best_run::<S>(
                        emptied.0,
                        market@,
                        best_without(b, side, tick, node.next_tick),
                    )
                }
            },
        }
    }
}

/// An order leaving the queue of its level, step by step. The level and
/// the links of the order are read; the order before it, if there is
/// one, is pointed at the order after it, and the order after it
/// likewise; the links of the order are cleared; and the level is taken
/// out of its list when it has no order left, and stored back otherwise.
#[verifier::opaque]
pub open spec fn remove_from_book_run<S: StateAccess>(
    m: S::Model,
    market: [u8; 32],
    side: Side,
    tick: i32,
    order_id: [u8; 32],
) -> (S::Model, Result<(), Cause>) {
    let level = get_tick_node_run::<S>(m, market@, side.code(), tick);
    match level.1 {
        Err(c) => (level.0, Err(c)),
        Ok(node) => {
            let own = get_order_node_run::<S>(level.0, order_id@);
            match own.1 {
                Err(c) => (own.0, Err(c)),
                Ok(links) => {
                    let prev_id = links.prev_order_id;
                    let next_id = links.next_order_id;
                    let first = if prev_id@ != NONE_ORDER_ID@ {
                        bypass_run::<S>(own.0, prev_id, true, next_id)
                    } else {
                        (own.0, Ok(()))
                    };
                    let n1 = if prev_id@ != NONE_ORDER_ID@ {
                        node
                    } else {
                        TickNode {
                            prev_tick: node.prev_tick,
                            next_tick: node.next_tick,
                            head_order_id: next_id,
                            tail_order_id: node.tail_order_id,
                        }
                    };
                    if first.1 is Err {
                        first
                    } else {
                        let second = if next_id@ != NONE_ORDER_ID@ {
                            bypass_run::<S>(first.0, next_id, false, prev_id)
                        } else {
                            (first.0, Ok(()))
                        };
                        let n2 = if next_id@ != NONE_ORDER_ID@ {
                            n1
                        } else {
                            TickNode {
                                prev_tick: n1.prev_tick,
                                next_tick: n1.next_tick,
                                head_order_id: n1.head_order_id,
                                tail_order_id: prev_id,
                            }
                        };
                        if second.1 is Err {
                            second
                        } else {
                            let cleared = set_order_node_run::<S>(
                                second.0,
                                order_id@,
                                empty_order_node(),
                            );
                            if cleared.1 is Err {
                                cleared
                            } else if n2.head_order_id@ == NONE_ORDER_ID@ {
                                drop_level_run::<S>(cleared.0, market, side, tick, n2)
                            } else {
                                set_tick_node_run::<S>(cleared.0, market@, side.code(), tick, n2)
                            }
                        }
                    }
                },
            }
        },
    }
}

/// The fee totals and the trades in hand.
pub struct Tally {
    pub totals: Seq<FeeTotal>,
    pub trades: Seq<TradeRecord>,
}

/// Why a new order is refused before anything is written, if it is: the
/// id stands for "no order" or is in use, the quantity is zero or no
/// multiple of the lot size, or the tick has no price.
pub open spec fn order_refusal(known: Option<Order>, rules: Rules, order: NewOrder) -> Option<Cause> {
    let qty = order.qty_base@;
    if known is Some || qty == 0 || rules.lot_size@ == 0 || qty % rules.lot_size@ != 0 {
        Some(Cause::Invalid)
    } else if price_of(order.tick_index, rules.tick_size@) is None {
        Some(price_cause(order.tick_index))
    } else {
        None
    }
}

/// What is done with an order after the walk, step by step: an
/// immediate order releases what is still locked and is stored closed; a
/// resting order is stored filled when nothing remains and comes to rest
/// otherwise.
pub open spec fn finish_order_run<S: StateAccess>(
    m: S::Model,
    market: [u8; 32],
    rules: Rules,
    order: NewOrder,
    price: nat,
    w: Walk,
) -> (S::Model, Result<(), Cause>) {
    let status = if w.remaining == 0 {
        OrderStatus::Filled
    } else {
        OrderStatus::Canceled
    };
    if order.tif == TimeInForce::Ioc {
        let released = if w.remaining != 0 {
            release_run::<S>(m, order.trader, order.side, w.remaining, price, rules)
        } else {
            (m, Ok(()))
        };
        if released.1 is Err {
            released
        } else {
            set_order_run::<S>(released.0, order.order_id@, closed_order(order, status))
        }
    } else if w.remaining == 0 {
        set_order_run::<S>(m, order.order_id@, closed_order(order, OrderStatus::Filled))
    } else {
        let rested = place_resting_run::<S>(
            m,
            market,
            order.order_id,
            order.trader,
            order.side,
            order.tick_index,
            w.remaining,
            order.tif,
            order.prev_tick_hint,
            order.next_tick_hint,
            w.best,
        );
        (
            rested.0,
            match rested.1 {
                Err(c) => Err(c),
                Ok(_) => Ok(()),
            },
        )
    }
}

/// Placing an order, step by step. The order id is checked and looked
/// up, quantity and tick are checked, the taker's funds are locked, the
/// best ticks are read, the other side is walked, and the order is
/// finished. The accessor afterwards, and the fee totals and trades.
#[verifier::opaque]
pub open spec fn place_run<S: StateAccess>(
    m: S::Model,
    market: [u8; 32],
    rules: Rules,
    order: NewOrder,
    totals: Seq<FeeTotal>,
    trades: Seq<TradeRecord>,
) -> (S::Model, Result<Tally, Cause>) {
    let qty = order.qty_base@;
    if order.order_id@ == NONE_ORDER_ID@ {
        (m, Err(Cause::Invalid))
    } else {
        let known = get_order_run::<S>(m, order.order_id@);
        match known.1 {
            Err(c) => (known.0, Err(c)),
            Ok(stored) => match order_refusal(stored, rules, order) {
                Some(c) => (known.0, Err(c)),
                None => {
                    let price = price_of(order.tick_index, rules.tick_size@).unwrap();
                    let taker = Taker {
                        market_id: market,
                        trader: order.trader,
                        order_id: order.order_id,
                        side: order.side,
                        limit_price: u256(price),
                    };
                    let locked = lock_taker_run::<S>(
                        known.0,
                        order.trader,
                        order.side,
                        price,
                        qty,
                        rules,
                    );
                    match locked.1 {
                        Err(c) => (locked.0, Err(c)),
                        Ok(_) => {
                            let best = get_market_best_run::<S>(locked.0, market@);
                            match best.1 {
                                Err(c) => (best.0, Err(c)),
                                Ok(b) => {
                                    let walked = match_orders_run::<S>(
                                        best.0,
                                        Walk { remaining: qty, matches: 0, best: b, totals, trades },
                                        taker,
                                        rules,
                                        u64::MAX as nat,
                                    );
                                    match walked.1 {
                                        Err(c) => (walked.0, Err(c)),
                                        Ok(w) => {
                                            let finished = finish_order_run::<S>(
                                                walked.0,
                                                market,
                                                rules,
                                                order,
                                                price,
                                                w,
                                            );
                                            (
                                                finished.0,
                                                match finished.1 {
                                                    Err(c) => Err(c),
                                                    Ok(_) => Ok(
                                                        Tally {
                                                            totals: w.totals,
                                                            trades: w.trades,
                                                        },
                                                    ),
                                                },
                                            )
                                        },
                                    }
                                },
                            }
                        },
                    }
                },
            },
        }
    }
}

/// Cancelling an order, step by step: the order is read and checked,
/// what it still locks is released, it is stored cancelled with nothing
/// left, and it leaves the queue of its level. An order that is missing,
/// not the trader's or not open is `Invalid`.
#[verifier::opaque]
pub open spec fn cancel_run<S: StateAccess>(
    m: S::Model,
    market: [u8; 32],
    rules: Rules,
    trader: [u8; 20],
    order_id: [u8; 32],
) -> (S::Model, Result<(), Cause>) {
    let read = get_order_run::<S>(m, order_id@);
    match read.1 {
        Err(c) => (read.0, Err(c)),
        Ok(None) => (read.0, Err(Cause::Invalid)),
        Ok(Some(order)) => {
            if order.owner@ != trader@ || order.status != OrderStatus::Open {
                (read.0, Err(Cause::Invalid))
            } else {
                match price_of(order.tick, rules.tick_size@) {
                    None => (read.0, Err(price_cause(order.tick))),
                    Some(price) => {
                        let released = release_run::<S>(
                            read.0,
                            trader,
                            order.side,
                            order.qty_remaining@,
                            price,
                            rules,
                        );
                        if released.1 is Err {
                            released
                        } else {
                            let stored = set_order_run::<S>(
                                released.0,
                                order_id@,
                                Order {
                                    owner: order.owner,
                                    side: order.side,
                                    tick: order.tick,
                                    qty_remaining: u256(0),
                                    tif: order.tif,
                                    status: OrderStatus::Canceled,
                                },
                            );
                            if stored.1 is Err {
                                stored
                            } else {
                                remove_from_book_run::<S>(
                                    stored.0,
                                    market,
                                    order.side,
                                    order.tick,
                                    order_id,
                                )
                            }
                        }
                    },
                }
            }
        },
    }
}

/// Checking the hints of a new order before anything is written for it,
/// step by step. For an order that stays until cancelled and whose tick
/// has a price, the best ticks are read; if the order is certain to
/// rest, its level is read; and if the level has no orders, the hints
/// are checked. Hints that do not fit are `Invalid`.
pub open spec fn early_hints_run<S: StateAccess>(
    m: S::Model,
    market: [u8; 32],
    rules: Rules,
    order: NewOrder,
) -> (S::Model, Result<(), Cause>) {
    if order.tif != TimeInForce::Gtc || price_of(order.tick_index, rules.tick_size@) is None {
        (m, Ok(()))
    } else {
        let best = get_market_best_run::<S>(m, market@);
        match best.1 {
            Err(c) => (best.0, Err(c)),
            Ok(b) => if !certain_to_rest(b, rules, order) {
                (best.0, Ok(()))
            } else {
                let level = get_tick_node_run::<S>(
                    best.0,
                    market@,
                    order.side.code(),
                    order.tick_index,
                );
                match level.1 {
                    Err(c) => (level.0, Err(c)),
                    Ok(node) => if node.head_order_id@ != NONE_ORDER_ID@ {
                        (level.0, Ok(()))
                    } else {
                        verify_tick_hints_run::<S>(
                            level.0,
                            market,
                            order.side,
                            order.tick_index,
                            order.prev_tick_hint,
                            order.next_tick_hint,
                            b,
                        )
                    },
                }
            },
        }
    }
}

/// One message, step by step: the signature is checked, the sender's
/// nonce is read and checked, the hints of a new order that is certain
/// to rest are checked, the nonce is stored, and the message is carried
/// out. A signature that is
/// not the sender's is `Signature`, and a nonce other than the stored
/// one plus one and hints that do not fit are `Invalid`; nothing is
/// written before any of them.
#[verifier::opaque]
pub open spec fn message_run<S: StateAccess>(
    m: S::Model,
    tally: Tally,
    market: [u8; 32],
    rules: Rules,
    domain_sep: [u8; 32],
    signed: SignedMessage,
) -> (S::Model, Result<Tally, Cause>) {
    let message = signed.message;
    let trader = message.sender();
    if !signed_by(domain_sep@, message, signed.signature, trader@) {
        (m, Err(Cause::Signature))
    } else {
        let read = get_nonce_run::<S>(m, trader@);
        match read.1 {
            Err(c) => (read.0, Err(c)),
            Ok(current) => {
                let hinted = if message is Place {
                    early_hints_run::<S>(read.0, market, rules, new_order_of(message))
                } else {
                    (read.0, Ok(()))
                };
                if message.sequence() != current + 1 {
                    (read.0, Err(Cause::Invalid))
                } else if hinted.1 is Err {
                    (hinted.0, Err(hinted.1->Err_0))
                } else {
                    let counted = set_nonce_run::<S>(hinted.0, trader@, message.sequence());
                    match counted.1 {
                        Err(c) => (counted.0, Err(c)),
                        Ok(_) => match message {
                            Message::Place { .. } => place_run::<S>(
                                counted.0,
                                market,
                                rules,
                                new_order_of(message),
                                tally.totals,
                                tally.trades,
                            ),
                            Message::Cancel { trader, order_id, .. } => {
                                let cancelled = cancel_run::<S>(
                                    counted.0,
                                    market,
                                    rules,
                                    trader,
                                    order_id,
                                );
                                (
                                    cancelled.0,
                                    match cancelled.1 {
                                        Err(c) => Err(c),
                                        Ok(_) => Ok(tally),
                                    },
                                )
                            },
                        },
                    }
                }
            },
        }
    }
}

/// The messages in their order, step by step; the first that fails ends
/// the run, and what the messages before it did stays done.
pub open spec fn messages_run<S: StateAccess>(
    m: S::Model,
    tally: Tally,
    market: [u8; 32],
    rules: Rules,
    domain_sep: [u8; 32],
    messages: Seq<SignedMessage>,
) -> (S::Model, Result<Tally, Cause>)
    decreases messages.len(),
{
    if messages.len() == 0 {
        (m, Ok(tally))
    } else {
        let first = message_run::<S>(m, tally, market, rules, domain_sep, messages[0]);
        match first.1 {
            Ok(t) => messages_run::<S>(first.0, t, market, rules, domain_sep, messages.skip(1)),
            Err(c) => (first.0, Err(c)),
        }
    }
}

/// A batch, step by step: where the accessor stands after it, and the
/// fee totals and trades. A batch that the rules do not admit is
/// `Invalid` and leaves the accessor where it stands.
pub open spec fn batch_run<S: StateAccess>(
    m: S::Model,
    market: [u8; 32],
    rules: Rules,
    domain_sep: [u8; 32],
    messages: Seq<SignedMessage>,
) -> (S::Model, Result<Tally, Cause>) {
    if !rules_admit(rules, messages.len()) {
        (m, Err(Cause::Invalid))
    } else {
        messages_run::<S>(
            m,
            Tally { totals: Seq::empty(), trades: Seq::empty() },
            market,
            rules,
            domain_sep,
            messages,
        )
    }
}

/// A message that is refused before its nonce is stored is answered by
/// reads alone, on every accessor.
///
/// A message with a signature that is not the sender's fails with
/// `Signature` and leaves the accessor where it stands. One with a nonce
/// other than the stored nonce plus one fails with `Invalid` and leaves
/// the accessor where the read of the nonce left it. One that places an
/// order with hints that are not admitted fails with the error of the
/// hint check, `Invalid` when the hints do not fit, and leaves the
/// accessor where the reads of the hint check left it. In none of these
/// cases is a write made.
pub proof fn lemma_refused_message_reads_only<S: StateAccess>(
    m: S::Model,
    tally: Tally,
    market: [u8; 32],
    rules: Rules,
    domain_sep: [u8; 32],
    signed: SignedMessage,
)
    ensures
        ({
            let message = signed.message;
            let sender = message.sender();
            let run = message_run::<S>(m, tally, market, rules, domain_sep, signed);
            let nonce = get_nonce_run::<S>(m, sender@);
            let hinted = early_hints_run::<S>(nonce.0, market, rules, new_order_of(message));
            &&& !signed_by(domain_sep@, message, signed.signature, sender@) ==> run == (
                m,
                Err::<Tally, Cause>(Cause::Signature),
            )
            &&& signed_by(domain_sep@, message, signed.signature, sender@) && nonce.1 is Ok
                && message.sequence() != nonce.1->Ok_0 + 1 ==> run == (
                nonce.0,
                Err::<Tally, Cause>(Cause::Invalid),
            )
            &&& signed_by(domain_sep@, message, signed.signature, sender@) && nonce.1 is Ok
                && message.sequence() == nonce.1->Ok_0 + 1 && message is Place && hinted.1
                is Err ==> run == (hinted.0, Err::<Tally, Cause>(hinted.1->Err_0))
        }),
{
    reveal(message_run);
}

/// Reading leaves a tree as it is: on a `RecordingState`, checking the
/// hints of a new order changes nothing.
pub proof fn lemma_hint_check_reads(
    m: RecordModel,
    market: [u8; 32],
    rules: Rules,
    order: NewOrder,
)
    ensures
        early_hints_run::<RecordingState>(m, market, rules, order).0.entries == m.entries,
        early_hints_run::<RecordingState>(m, market, rules, order).0.root == m.root,
{
}

/// A message that is refused before its nonce is stored writes nothing.
///
/// On a `RecordingState`: a message with a signature that is not the
/// sender's fails with `Signature`; one with a nonce other than the
/// stored nonce plus one fails with `Invalid`; and one that places an
/// order with hints that are not admitted fails with the error of the
/// hint check, `Invalid` when the hints do not fit. In each case the
/// tree and its root are what they were.
pub proof fn lemma_refused_message_writes_nothing(
    m: RecordModel,
    tally: Tally,
    market: [u8; 32],
    rules: Rules,
    domain_sep: [u8; 32],
    signed: SignedMessage,
)
    ensures
        ({
            let message = signed.message;
            let sender = message.sender();
            let run = message_run::<RecordingState>(m, tally, market, rules, domain_sep, signed);
            let nonce = get_nonce_run::<RecordingState>(m, sender@);
            let hinted = early_hints_run::<RecordingState>(
                nonce.0,
                market,
                rules,
                new_order_of(message),
            ).1;
            let refused = !signed_by(domain_sep@, message, signed.signature, sender@) || (nonce.1
                is Ok && (message.sequence() != nonce.1->Ok_0 + 1 || (message is Place && hinted
                is Err)));
            &&& refused ==> run.1 is Err && run.0.entries == m.entries && run.0.root == m.root
            &&& !signed_by(domain_sep@, message, signed.signature, sender@) ==> run.1 == Err::<
                Tally,
                Cause,
            >(Cause::Signature)
            &&& signed_by(domain_sep@, message, signed.signature, sender@) && nonce.1 is Ok
                && message.sequence() != nonce.1->Ok_0 + 1 ==> run.1 == Err::<Tally, Cause>(
                Cause::Invalid,
            )
        }),
{
    reveal(message_run);
    let nonce = get_nonce_run::<RecordingState>(m, signed.message.sender()@);
    lemma_hint_check_reads(nonce.0, market, rules, new_order_of(signed.message));
}

} // verus!
