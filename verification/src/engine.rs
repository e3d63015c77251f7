use crate::book::accumulate_fee;
use crate::book::fill_amounts;
use crate::book::adjust;
use crate::book::adjusted;
use crate::book::fill_terms_spec;
use crate::book::lemma_u256;
use crate::book::lock_funds;
use crate::book::lock_funds_spec;
use crate::book::release_funds;
use crate::book::release_funds_spec;
use crate::book::totals_add;
use crate::book::u256;
use crate::book::FillTerms;
use crate::bytes::same_bytes;
use crate::constants::NONE_ORDER_ID;
use crate::constants::NONE_TICK;
use crate::errors::CoreError;
use crate::input::Message;
use crate::input::Rules;
use crate::input::SignedMessage;
use crate::math::mul_div_up;
use crate::math::mul_div_up_spec;
use crate::state::balance_key;
use crate::state::fee_vault_key;
use crate::state::get_balance;
use crate::state::get_fee_vault;
use crate::state::get_market_best;
use crate::state::get_nonce;
use crate::state::get_order;
use crate::state::get_order_node;
use crate::state::get_tick_node;
use crate::state::market_best_key;
use crate::state::nonce_key;
use crate::state::order_key;
use crate::state::order_node_key;
use crate::state::set_balance;
use crate::state::set_fee_vault;
use crate::state::set_market_best;
use crate::state::set_nonce;
use crate::state::set_order;
use crate::state::set_order_node;
use crate::state::set_tick_node;
use crate::state::stored_balance;
use crate::state::stored_fee_vault;
use crate::state::stored_market_best;
use crate::state::stored_nonce;
use crate::state::stored_order;
use crate::state::stored_order_node;
use crate::state::stored_tick_node;
use crate::state::tick_node_key;
use crate::state::StateAccess;
use crate::types::FeeTotal;
use crate::types::FeeVault;
use crate::types::MarketBest;
use crate::types::Order;
use crate::types::OrderNode;
use crate::types::OrderStatus;
use crate::types::Side;
use crate::types::TickNode;
use crate::types::TimeInForce;
use crate::types::TradeRecord;
use crate::verify::check_lot_size;
use crate::verify::price_from_tick;
use crate::verify::price_of;
use crate::verify::signed_by;
use crate::verify::verify_signature;
use crate::wide::two_256;
use crate::wide::U256;
use crate::steps::batch_run;
use crate::steps::cancel_run;
use crate::steps::adjust_run;
use crate::steps::close_level_run;
use crate::steps::early_hints_run;
use crate::steps::message_run;
use crate::steps::messages_run;
use crate::steps::place_run;
use crate::steps::Tally;
use crate::steps::collect_fee_run;
use crate::steps::has_cause;
use crate::steps::outcome;
use crate::steps::Cause;
use crate::steps::fill_maker_run;
use crate::steps::match_orders_run;
use crate::steps::match_step_run;
use crate::steps::match_tick_run;
use crate::steps::place_resting_run;
use crate::steps::pop_head_run;
use crate::steps::remove_from_book_run;
use crate::steps::verify_tick_hints_run;
use crate::steps::set_links_run;
use crate::steps::Walk;
use crate::steps::lock_taker_run;
use crate::steps::release_run;
use crate::steps::settle_fill_run;
use vstd::prelude::*;

verus! {

/// The key-value contents that the engine works on.
pub type Store = Map<Seq<u8>, Seq<u8>>;

/// What a batch produced: the fills in their order, and the fees collected
/// per asset in ascending order of the asset ids.
pub struct BatchOutput {
    pub trades: Vec<TradeRecord>,
    pub fee_totals: Vec<FeeTotal>,
}

/// The order that is being placed, as the matching sees it.
#[derive(Clone, Copy, Debug)]
pub struct Taker {
    pub market_id: [u8; 32],
    pub trader: [u8; 20],
    pub order_id: [u8; 32],
    pub side: Side,
    pub limit_price: U256,
}

/// The asset that an order of `side` locks: quote to buy, base to sell.
pub open spec fn lock_asset(side: Side, rules: Rules) -> [u8; 32] {
    match side {
        Side::Buy => rules.quote_asset_id,
        Side::Sell => rules.base_asset_id,
    }
}

/// What an order of `side` locks for `qty` base at `price`: the price of
/// the quantity rounded up to buy, the quantity itself to sell.
pub open spec fn lock_amount(side: Side, price: nat, qty: nat, rules: Rules) -> Option<nat> {
    match side {
        Side::Buy => mul_div_up_spec(price, qty, rules.price_scale@),
        Side::Sell => Some(qty),
    }
}

/// The contents after the taker's funds are locked for a new order. Both
/// balances of the trader are read; the one in the locked asset is
/// rewritten. `None` when a balance is malformed, the amount cannot be
/// computed, the funds are missing, or a part of the balance would
/// exceed the limit.
pub open spec fn lock_taker_spec(
    store: Store,
    trader: [u8; 20],
    side: Side,
    price: nat,
    qty: nat,
    rules: Rules,
) -> Option<Store> {
    let asset = lock_asset(side, rules);
    if stored_balance(store, trader@, rules.quote_asset_id@) is None || stored_balance(
        store,
        trader@,
        rules.base_asset_id@,
    ) is None {
        None
    } else {
        match lock_amount(side, price, qty, rules) {
            Some(amount) => match lock_funds_spec(
                stored_balance(store, trader@, asset@).unwrap(),
                amount,
                rules.max_balance@,
            ) {
                Some(after) => Some(store.insert(balance_key(trader@, asset@), after.encoded())),
                None => None,
            },
            None => None,
        }
    }
}

/// The contents after locked funds of the trader are released: the
/// inverse of the lock for `remaining` base at `price`. `None` when the
/// amount cannot be computed, the balance is malformed, or the release
/// is refused.
pub open spec fn release_spec(
    store: Store,
    trader: [u8; 20],
    side: Side,
    remaining: nat,
    price: nat,
    rules: Rules,
) -> Option<Store> {
    let asset = lock_asset(side, rules);
    match lock_amount(side, price, remaining, rules) {
        Some(amount) => match stored_balance(store, trader@, asset@) {
            Some(balance) => match release_funds_spec(balance, amount, rules.max_balance@) {
                Some(after) => Some(store.insert(balance_key(trader@, asset@), after.encoded())),
                None => None,
            },
            None => None,
        },
        None => None,
    }
}

/// The contents after one update of a fill: the balance of `account` in
/// `asset` is read, `taken` leaves its locked part and `given` comes to
/// its free part, and it is written. `None` when the balance is
/// malformed or the update is refused.
pub open spec fn adjust_spec(
    store: Store,
    account: [u8; 20],
    asset: [u8; 32],
    taken: nat,
    given: nat,
    max: nat,
) -> Option<Store> {
    match stored_balance(store, account@, asset@) {
        Some(b) => match adjusted(b, taken, given, max) {
            Some(after) => Some(store.insert(balance_key(account@, asset@), after.encoded())),
            None => None,
        },
        None => None,
    }
}

/// One more update of a fill, where the updates before it succeeded.
pub open spec fn then_adjust(
    store: Option<Store>,
    account: [u8; 20],
    asset: [u8; 32],
    taken: nat,
    given: nat,
    max: nat,
) -> Option<Store> {
    match store {
        Some(s) => adjust_spec(s, account, asset, taken, given, max),
        None => None,
    }
}

/// The contents after a fill is settled between taker and maker: four
/// updates, one after another, each on the balance as it then stands.
///
/// A buying taker pays the amount and the fee from locked quote and
/// receives the base; then the maker gives locked base and receives the
/// amount. A selling taker gives locked base and receives the amount
/// less the fee; then the maker pays the amount from locked quote and
/// receives the base. `None` when the amount and the fee do not fit in
/// 256 bits together, the fee exceeds the amount on a sale, a balance is
/// malformed, or an update is refused.
#[verifier::opaque]
pub open spec fn settle_fill_spec(
    store: Store,
    side: Side,
    trader: [u8; 20],
    maker: [u8; 20],
    rules: Rules,
    terms: FillTerms,
) -> Option<Store> {
    let quote = rules.quote_asset_id;
    let base = rules.base_asset_id;
    let max = rules.max_balance@;
    let fill = terms.fill_qty@;
    let amount = terms.quote_amt@;
    let fee = terms.fee@;
    match side {
        Side::Buy => if amount + fee >= two_256() {
            None
        } else {
            then_adjust(
                then_adjust(
                    then_adjust(
                        adjust_spec(store, trader, quote, amount + fee, 0, max),
                        trader,
                        base,
                        0,
                        fill,
                        max,
                    ),
                    maker,
                    base,
                    fill,
                    0,
                    max,
                ),
                maker,
                quote,
                0,
                amount,
                max,
            )
        },
        Side::Sell => if fee > amount {
            None
        } else {
            then_adjust(
                then_adjust(
                    then_adjust(
                        adjust_spec(store, trader, base, fill, 0, max),
                        trader,
                        quote,
                        0,
                        (amount - fee) as nat,
                        max,
                    ),
                    maker,
                    quote,
                    amount,
                    0,
                    max,
                ),
                maker,
                base,
                0,
                fill,
                max,
            )
        },
    }
}

/// The contents after `fee` is added to the vault of `asset`. `None` when
/// the vault is malformed or its total would not fit in 256 bits.
pub open spec fn collect_fee_spec(store: Store, asset: [u8; 32], fee: nat) -> Option<Store> {
    match stored_fee_vault(store, asset@) {
        Some(vault) => if vault.total@ + fee >= two_256() {
            None
        } else {
            Some(
                store.insert(
                    fee_vault_key(asset@),
                    FeeVault { total: u256(vault.total@ + fee) }.encoded(),
                ),
            )
        },
        None => None,
    }
}

/// Locks the taker's funds for a new order.
fn lock_taker<S: StateAccess>(
    state: &mut S,
    trader: &[u8; 20],
    side: Side,
    price: U256,
    qty: U256,
    rules: &Rules,
) -> (r: Result<(), CoreError>)
    ensures
        final(state).model() == lock_taker_run::<S>(
            old(state).model(),
            *trader,
            side,
            price@,
            qty@,
            *rules,
        ).0,
        outcome(r, lock_taker_run::<S>(
            old(state).model(),
            *trader,
            side,
            price@,
            qty@,
            *rules,
        ).1),
        final(state).coherent() ==> old(state).coherent(),
        old(state).steady() ==> final(state).steady(),
        final(state).anchor() == old(state).anchor(),
        r is Ok && final(state).coherent() ==> lock_taker_spec(
            old(state).contents(),
            *trader,
            side,
            price@,
            qty@,
            *rules,
        ) == Some(final(state).contents()),
        r is Err && final(state).coherent() ==> lock_taker_spec(
            old(state).contents(),
            *trader,
            side,
            price@,
            qty@,
            *rules,
        ) is None,
{
    let balance_quote = get_balance(state, trader, &rules.quote_asset_id)?;
    let balance_base = get_balance(state, trader, &rules.base_asset_id)?;
    match side {
        Side::Buy => {
            let lock_quote = mul_div_up(price, qty, rules.price_scale)?;
            let after = lock_funds(
                &balance_quote,
                lock_quote,
                rules.max_balance,
                "insufficient quote balance",
            )?;
            set_balance(state, trader, &rules.quote_asset_id, &after)
        },
        Side::Sell => {
            let after = lock_funds(&balance_base, qty, rules.max_balance, "insufficient base balance")?;
            set_balance(state, trader, &rules.base_asset_id, &after)
        },
    }
}

/// Releases what is still locked for `remaining` base of an order at `price`.
pub fn release_remaining<S: StateAccess>(
    state: &mut S,
    trader: &[u8; 20],
    side: Side,
    remaining: U256,
    price: U256,
    rules: &Rules,
) -> (r: Result<(), CoreError>)
    ensures
        final(state).model() == release_run::<S>(
            old(state).model(),
            *trader,
            side,
            remaining@,
            price@,
            *rules,
        ).0,
        outcome(r, release_run::<S>(
            old(state).model(),
            *trader,
            side,
            remaining@,
            price@,
            *rules,
        ).1),
        final(state).coherent() ==> old(state).coherent(),
        old(state).steady() ==> final(state).steady(),
        final(state).anchor() == old(state).anchor(),
        r is Ok && final(state).coherent() ==> release_spec(
            old(state).contents(),
            *trader,
            side,
            remaining@,
            price@,
            *rules,
        ) == Some(final(state).contents()),
        r is Err && final(state).coherent() ==> release_spec(
            old(state).contents(),
            *trader,
            side,
            remaining@,
            price@,
            *rules,
        ) is None,
{
    match side {
        Side::Buy => {
            let release = mul_div_up(price, remaining, rules.price_scale)?;
            let bal = get_balance(state, trader, &rules.quote_asset_id)?;
            let after = release_funds(
                &bal,
                release,
                rules.max_balance,
                "locked quote insufficient",
            )?;
            set_balance(state, trader, &rules.quote_asset_id, &after)
        },
        Side::Sell => {
            let bal = get_balance(state, trader, &rules.base_asset_id)?;
            let after = release_funds(
                &bal,
                remaining,
                rules.max_balance,
                "locked base insufficient",
            )?;
            set_balance(state, trader, &rules.base_asset_id, &after)
        },
    }
}

/// Applies one update of a fill to the balance of `account` in `asset`.
fn adjust_balance<S: StateAccess>(
    state: &mut S,
    account: &[u8; 20],
    asset: &[u8; 32],
    taken: U256,
    given: U256,
    max_balance: U256,
    shortfall: &'static str,
) -> (r: Result<(), CoreError>)
    ensures
        final(state).model() == adjust_run::<S>(
            old(state).model(),
            *account,
            *asset,
            taken@,
            given@,
            max_balance@,
        ).0,
        outcome(
            r,
            adjust_run::<S>(old(state).model(), *account, *asset, taken@, given@, max_balance@).1,
        ),
        final(state).coherent() ==> old(state).coherent(),
        old(state).steady() ==> final(state).steady(),
        final(state).anchor() == old(state).anchor(),
        r is Ok && final(state).coherent() ==> adjust_spec(
            old(state).contents(),
            *account,
            *asset,
            taken@,
            given@,
            max_balance@,
        ) == Some(final(state).contents()),
        r is Err && final(state).coherent() ==> adjust_spec(
            old(state).contents(),
            *account,
            *asset,
            taken@,
            given@,
            max_balance@,
        ) is None,
{
    let balance = get_balance(state, account, asset)?;
    let after = adjust(&balance, taken, given, max_balance, shortfall)?;
    set_balance(state, account, asset, &after)
}

/// Settles a fill between taker and maker in the state.
fn settle_fill<S: StateAccess>(
    state: &mut S,
    side: Side,
    trader: &[u8; 20],
    maker: &[u8; 20],
    rules: &Rules,
    terms: &FillTerms,
) -> (r: Result<(), CoreError>)
    ensures
        final(state).model() == settle_fill_run::<S>(
            old(state).model(),
            side,
            *trader,
            *maker,
            *rules,
            *terms,
        ).0,
        outcome(
            r,
            settle_fill_run::<S>(old(state).model(), side, *trader, *maker, *rules, *terms).1,
        ),
        final(state).coherent() ==> old(state).coherent(),
        old(state).steady() ==> final(state).steady(),
        final(state).anchor() == old(state).anchor(),
        r is Ok && final(state).coherent() ==> settle_fill_spec(
            old(state).contents(),
            side,
            *trader,
            *maker,
            *rules,
            *terms,
        ) == Some(final(state).contents()),
        r is Err && final(state).coherent() ==> settle_fill_spec(
            old(state).contents(),
            side,
            *trader,
            *maker,
            *rules,
            *terms,
        ) is None,
{
    proof {
        reveal(settle_fill_spec);
        lemma_u256(U256 { hi: 0, lo: 0 }, 0);
    }
    let none = U256::zero();
    let max = rules.max_balance;
    let quote = rules.quote_asset_id;
    let base = rules.base_asset_id;
    match side {
        Side::Buy => {
            let spend = match terms.quote_amt.checked_add(&terms.fee) {
                Some(v) => v,
                None => {
                    return Err(CoreError::Math("balance overflow"));
                },
            };
            adjust_balance(state, trader, &quote, spend, none, max, "taker locked quote insufficient")?;
            adjust_balance(state, trader, &base, none, terms.fill_qty, max, "")?;
            adjust_balance(
                state,
                maker,
                &base,
                terms.fill_qty,
                none,
                max,
                "maker locked base insufficient",
            )?;
            adjust_balance(state, maker, &quote, none, terms.quote_amt, max, "")
        },
        Side::Sell => {
            let receive = match terms.quote_amt.checked_sub(&terms.fee) {
                Some(v) => v,
                None => {
                    return Err(CoreError::Math("fee exceeds quote"));
                },
            };
            adjust_balance(
                state,
                trader,
                &base,
                terms.fill_qty,
                none,
                max,
                "taker locked base insufficient",
            )?;
            adjust_balance(state, trader, &quote, none, receive, max, "")?;
            adjust_balance(
                state,
                maker,
                &quote,
                terms.quote_amt,
                none,
                max,
                "maker locked quote insufficient",
            )?;
            adjust_balance(state, maker, &base, none, terms.fill_qty, max, "")
        },
    }
}

/// Adds `fee` to the vault of `asset`.
fn collect_fee<S: StateAccess>(state: &mut S, asset: &[u8; 32], fee: U256) -> (r: Result<
    (),
    CoreError,
>)
    ensures
        final(state).model() == collect_fee_run::<S>(old(state).model(), *asset, fee@).0,
        outcome(r, collect_fee_run::<S>(old(state).model(), *asset, fee@).1),
        final(state).coherent() ==> old(state).coherent(),
        old(state).steady() ==> final(state).steady(),
        final(state).anchor() == old(state).anchor(),
        r is Ok && final(state).coherent() ==> collect_fee_spec(
            old(state).contents(),
            *asset,
            fee@,
        ) == Some(final(state).contents()),
        r is Err && final(state).coherent() ==> collect_fee_spec(
            old(state).contents(),
            *asset,
            fee@,
        ) is None,
{
    let vault = get_fee_vault(state, asset)?;
    let total = match vault.total.checked_add(&fee) {
        Some(v) => v,
        None => {
            return Err(CoreError::Math("fee vault overflow"));
        },
    };
    proof {
        lemma_u256(total, 0);
    }
    set_fee_vault(state, asset, &FeeVault { total })
}

/// A price level without neighbours and orders: what is stored for a
/// level that has been emptied.
pub open spec fn empty_tick_node() -> TickNode {
    TickNode {
        prev_tick: NONE_TICK,
        next_tick: NONE_TICK,
        head_order_id: NONE_ORDER_ID,
        tail_order_id: NONE_ORDER_ID,
    }
}

/// Queue links without neighbours: what is stored for an order that has
/// left its queue.
pub open spec fn empty_order_node() -> OrderNode {
    OrderNode { prev_order_id: NONE_ORDER_ID, next_order_id: NONE_ORDER_ID }
}

/// The contents and the price level after the order at the head of the
/// level's queue has left it: the next order becomes the head and loses
/// its link back, the level loses its tail when no order follows, and the
/// links of the order that left are cleared. `None` when queue links are
/// malformed.
pub open spec fn pop_head_spec(store: Store, node: TickNode, maker_id: [u8; 32]) -> Option<
    (Store, TickNode),
> {
    match stored_order_node(store, maker_id@) {
        Some(maker_node) => {
            let next_id = maker_node.next_order_id;
            if next_id@ == NONE_ORDER_ID@ {
                Some(
                    (
                        store.insert(order_node_key(maker_id@), empty_order_node().encoded()),
                        TickNode {
                            prev_tick: node.prev_tick,
                            next_tick: node.next_tick,
                            head_order_id: next_id,
                            tail_order_id: NONE_ORDER_ID,
                        },
                    ),
                )
            } else {
                match stored_order_node(store, next_id@) {
                    Some(next_node) => Some(
                        (
                            store.insert(
                                order_node_key(next_id@),
                                OrderNode {
                                    prev_order_id: NONE_ORDER_ID,
                                    next_order_id: next_node.next_order_id,
                                }.encoded(),
                            ).insert(order_node_key(maker_id@), empty_order_node().encoded()),
                            TickNode {
                                prev_tick: node.prev_tick,
                                next_tick: node.next_tick,
                                head_order_id: next_id,
                                tail_order_id: node.tail_order_id,
                            },
                        ),
                    ),
                    None => None,
                }
            }
        },
        None => None,
    }
}

/// What one fill leaves behind.
pub struct FillOutcome {
    pub store: Store,
    pub node: TickNode,
    pub remaining: nat,
    pub totals: Seq<FeeTotal>,
    pub trade: TradeRecord,
}

/// The fill of the order at the head of a price level by the taker.
///
/// The maker must be stored, open and on the other side. The fill is
/// settled, its fee is added to the totals and to the vault of the quote
/// asset, the maker's order is rewritten with what is left of it, and a
/// maker with nothing left is marked filled and leaves the queue. `None`
/// when any of this is refused.
#[verifier::opaque]
pub open spec fn fill_maker_spec(
    store: Store,
    taker: Taker,
    rules: Rules,
    tick_price: nat,
    node: TickNode,
    remaining: nat,
    totals: Seq<FeeTotal>,
) -> Option<FillOutcome> {
    let maker_id = node.head_order_id;
    match stored_order(store, maker_id@) {
        Some(Some(maker)) => {
            if maker.status != OrderStatus::Open || maker.side == taker.side {
                None
            } else {
                match fill_terms_spec(remaining, maker.qty_remaining@, tick_price, rules) {
                    Some(terms) => match settle_fill_spec(
                        store,
                        taker.side,
                        taker.trader,
                        maker.owner,
                        rules,
                        terms,
                    ) {
                        Some(settled) => match totals_add(
                            totals,
                            rules.quote_asset_id,
                            terms.fee@,
                        ) {
                            Some(totals1) => match collect_fee_spec(
                                settled,
                                rules.quote_asset_id,
                                terms.fee@,
                            ) {
                                Some(collected) => {
                                    let left = (maker.qty_remaining@ - terms.fill_qty@) as nat;
                                    let maker1 = Order {
                                        owner: maker.owner,
                                        side: maker.side,
                                        tick: maker.tick,
                                        qty_remaining: u256(left),
                                        tif: maker.tif,
                                        status: if left == 0 {
                                            OrderStatus::Filled
                                        } else {
                                            OrderStatus::Open
                                        },
                                    };
                                    let written = collected.insert(
                                        order_key(maker_id@),
                                        maker1.encoded(),
                                    );
                                    let trade = TradeRecord {
                                        market_id: taker.market_id,
                                        maker_order_id: maker_id,
                                        taker_order_id: taker.order_id,
                                        maker: maker.owner,
                                        taker: taker.trader,
                                        side_taker: taker.side,
                                        maker_tick: maker.tick,
                                        qty_base: terms.fill_qty,
                                        quote_amt: terms.quote_amt,
                                        taker_fee_quote: terms.fee,
                                    };
                                    let rest = (remaining - terms.fill_qty@) as nat;
                                    if left == 0 {
                                        match pop_head_spec(written, node, maker_id) {
                                            Some((popped, node1)) => Some(
                                                FillOutcome {
                                                    store: popped,
                                                    node: node1,
                                                    remaining: rest,
                                                    totals: totals1,
                                                    trade,
                                                },
                                            ),
                                            None => None,
                                        }
                                    } else {
                                        Some(
                                            FillOutcome {
                                                store: written,
                                                node,
                                                remaining: rest,
                                                totals: totals1,
                                                trade,
                                            },
                                        )
                                    }
                                },
                                None => None,
                            },
                            None => None,
                        },
                        None => None,
                    },
                    None => None,
                }
            }
        },
        _ => None,
    }
}

/// Where the matching of one order stands.
pub struct Matching {
    pub store: Store,
    pub remaining: nat,
    pub matches: nat,
    pub best: MarketBest,
    pub totals: Seq<FeeTotal>,
    pub trades: Seq<TradeRecord>,
}

/// The matching at one price level: as long as the level has a head and
/// the taker has quantity left, the head is filled, first come first
/// served. `None` when a fill is refused or another fill would exceed
/// the number of matches allowed for one order.
pub open spec fn match_tick_spec(
    m: Matching,
    node: TickNode,
    taker: Taker,
    rules: Rules,
    tick_price: nat,
) -> Option<(Matching, TickNode)>
    decreases rules.max_matches_per_order - m.matches,
{
    if node.head_order_id@ == NONE_ORDER_ID@ || m.remaining == 0 {
        Some((m, node))
    } else if m.matches >= rules.max_matches_per_order {
        None
    } else {
        match fill_maker_spec(m.store, taker, rules, tick_price, node, m.remaining, m.totals) {
            Some(f) => match_tick_spec(
                Matching {
                    store: f.store,
                    remaining: f.remaining,
                    matches: m.matches + 1,
                    best: m.best,
                    totals: f.totals,
                    trades: m.trades.push(f.trade),
                },
                f.node,
                taker,
                rules,
                tick_price,
            ),
            None => None,
        }
    }
}

/// Takes the order at the head of a price level out of its queue.
fn pop_head<S: StateAccess>(state: &mut S, tick_node: &mut TickNode, maker_id: &[u8; 32]) -> (r:
    Result<(), CoreError>)
    ensures
        ({
            let run = pop_head_run::<S>(old(state).model(), *old(tick_node), *maker_id);
            &&& final(state).model() == run.0
            &&& r is Ok <==> run.1 is Ok
            &&& r is Ok ==> run.1 == Ok::<TickNode, Cause>(*final(tick_node))
            &&& r matches Err(e) ==> has_cause(e, run.1->Err_0)
        }),
        final(state).coherent() ==> old(state).coherent(),
        old(state).steady() ==> final(state).steady(),
        final(state).anchor() == old(state).anchor(),
        r is Ok && final(state).coherent() ==> pop_head_spec(
            old(state).contents(),
            *old(tick_node),
            *maker_id,
        ) == Some((final(state).contents(), *final(tick_node))),
        r is Err && final(state).coherent() ==> pop_head_spec(
            old(state).contents(),
            *old(tick_node),
            *maker_id,
        ) is None,
{
    let maker_node = get_order_node(state, maker_id)?;
    let next_id = maker_node.next_order_id;
    tick_node.head_order_id = next_id;
    if same_bytes(next_id.as_slice(), NONE_ORDER_ID.as_slice()) {
        tick_node.tail_order_id = NONE_ORDER_ID;
    } else {
        let mut next_node = get_order_node(state, &next_id)?;
        next_node.prev_order_id = NONE_ORDER_ID;
        set_order_node(state, &next_id, &next_node)?;
    }
    set_order_node(
        state,
        maker_id,
        &OrderNode { prev_order_id: NONE_ORDER_ID, next_order_id: NONE_ORDER_ID },
    )
}

/// Fills the order at the head of a price level.
fn fill_maker<S: StateAccess>(
    state: &mut S,
    taker: &Taker,
    rules: &Rules,
    tick_price: U256,
    tick_node: &mut TickNode,
    remaining: &mut U256,
    totals: &mut Vec<FeeTotal>,
    trades: &mut Vec<TradeRecord>,
) -> (r: Result<(), CoreError>)
    ensures
        ({
            let run = fill_maker_run::<S>(
                old(state).model(),
                *taker,
                *rules,
                tick_price@,
                *old(tick_node),
                old(remaining)@,
                old(totals)@,
            );
            &&& final(state).model() == run.0
            &&& r is Ok <==> run.1 is Ok
            &&& r matches Err(e) ==> has_cause(e, run.1->Err_0)
            &&& r is Ok ==> {
                &&& run.1->Ok_0.node == *final(tick_node)
                &&& run.1->Ok_0.remaining == final(remaining)@
                &&& run.1->Ok_0.totals == final(totals)@
                &&& final(trades)@ == old(trades)@.push(run.1->Ok_0.trade)
            }
        }),
        final(state).coherent() ==> old(state).coherent(),
        old(state).steady() ==> final(state).steady(),
        final(state).anchor() == old(state).anchor(),
        r is Ok && final(state).coherent() ==> ({
            let filled = fill_maker_spec(
                old(state).contents(),
                *taker,
                *rules,
                tick_price@,
                *old(tick_node),
                old(remaining)@,
                old(totals)@,
            );
            &&& filled is Some
            &&& filled.unwrap().store == final(state).contents()
            &&& filled.unwrap().node == *final(tick_node)
            &&& filled.unwrap().remaining == final(remaining)@
            &&& filled.unwrap().totals == final(totals)@
            &&& final(trades)@ == old(trades)@.push(filled.unwrap().trade)
        }),
        r is Err && final(state).coherent() ==> fill_maker_spec(
                old(state).contents(),
                *taker,
                *rules,
                tick_price@,
                *old(tick_node),
                old(remaining)@,
                old(totals)@,
            ) is None,
{
    proof {
        reveal(fill_maker_spec);
        reveal(fill_maker_run);
    }
    let maker_order_id = tick_node.head_order_id;
    let mut maker_order = match get_order(state, &maker_order_id)? {
        Some(order) => order,
        None => {
            return Err(CoreError::Invalid("maker order missing"));
        },
    };
    if maker_order.status != OrderStatus::Open {
        return Err(CoreError::Invalid("maker order not open"));
    }
    if maker_order.side == taker.side {
        return Err(CoreError::Invalid("maker side mismatch"));
    }
    let ghost maker = maker_order;
    let terms = fill_amounts(*remaining, maker_order.qty_remaining, tick_price, rules)?;
    proof {
        lemma_u256(terms.fill_qty, if remaining@ < maker.qty_remaining@ {
            remaining@
        } else {
            maker.qty_remaining@
        });
    }
    settle_fill(state, taker.side, &taker.trader, &maker_order.owner, rules, &terms)?;
    let fee_asset = rules.quote_asset_id;
    accumulate_fee(totals, &fee_asset, terms.fee)?;
    collect_fee(state, &fee_asset, terms.fee)?;
    let left = match maker_order.qty_remaining.checked_sub(&terms.fill_qty) {
        Some(v) => v,
        None => {
            return Err(CoreError::Math("fill exceeds maker quantity"));
        },
    };
    proof {
        lemma_u256(left, 0);
    }
    maker_order.qty_remaining = left;
    if left.is_zero() {
        maker_order.status = OrderStatus::Filled;
    }
    set_order(state, &maker_order_id, &maker_order)?;
    trades.push(
        TradeRecord {
            market_id: taker.market_id,
            maker_order_id,
            taker_order_id: taker.order_id,
            maker: maker_order.owner,
            taker: taker.trader,
            side_taker: taker.side,
            maker_tick: maker_order.tick,
            qty_base: terms.fill_qty,
            quote_amt: terms.quote_amt,
            taker_fee_quote: terms.fee,
        },
    );
    let rest = match remaining.checked_sub(&terms.fill_qty) {
        Some(v) => v,
        None => {
            return Err(CoreError::Math("fill exceeds remaining quantity"));
        },
    };
    *remaining = rest;
    if maker_order.status == OrderStatus::Filled {
        pop_head(state, tick_node, &maker_order_id)?;
    }
    Ok(())
}

/// Matches the taker against the queue of one price level.
fn match_tick<S: StateAccess>(
    state: &mut S,
    taker: &Taker,
    rules: &Rules,
    tick_price: U256,
    tick_node: &mut TickNode,
    remaining: &mut U256,
    matches: &mut u32,
    best: &MarketBest,
    totals: &mut Vec<FeeTotal>,
    trades: &mut Vec<TradeRecord>,
) -> (r: Result<(), CoreError>)
    ensures
        ({
            let run = match_tick_run::<S>(
                old(state).model(),
                Walk {
                    remaining: old(remaining)@,
                    matches: *old(matches) as nat,
                    best: *best,
                    totals: old(totals)@,
                    trades: old(trades)@,
                },
                *old(tick_node),
                *taker,
                *rules,
                tick_price@,
            );
            &&& final(state).model() == run.0
            &&& r is Ok <==> run.1 is Ok
            &&& r matches Err(e) ==> has_cause(e, run.1->Err_0)
            &&& r is Ok ==> run.1 == Ok::<_, Cause>(
                (
                    Walk {
                        remaining: final(remaining)@,
                        matches: *final(matches) as nat,
                        best: *best,
                        totals: final(totals)@,
                        trades: final(trades)@,
                    },
                    *final(tick_node),
                ),
            )
        }),
        final(state).coherent() ==> old(state).coherent(),
        old(state).steady() ==> final(state).steady(),
        final(state).anchor() == old(state).anchor(),
        r is Ok && final(state).coherent() ==> match_tick_spec(
            Matching {
                store: old(state).contents(),
                remaining: old(remaining)@,
                matches: *old(matches) as nat,
                best: *best,
                totals: old(totals)@,
                trades: old(trades)@,
            },
            *old(tick_node),
            *taker,
            *rules,
            tick_price@,
        ) == Some(
            (
                Matching {
                    store: final(state).contents(),
                    remaining: final(remaining)@,
                    matches: *final(matches) as nat,
                    best: *best,
                    totals: final(totals)@,
                    trades: final(trades)@,
                },
                *final(tick_node),
            ),
        ),
        r is Err && final(state).coherent() ==> match_tick_spec(
            Matching {
                store: old(state).contents(),
                remaining: old(remaining)@,
                matches: *old(matches) as nat,
                best: *best,
                totals: old(totals)@,
                trades: old(trades)@,
            },
            *old(tick_node),
            *taker,
            *rules,
            tick_price@,
        ) is None,
{
    proof {
        reveal_with_fuel(match_tick_run, 2);
    }
    let ghost start = Matching {
        store: state.contents(),
        remaining: remaining@,
        matches: *matches as nat,
        best: *best,
        totals: totals@,
        trades: trades@,
    };
    let ghost start_node = *tick_node;
    let ghost start_coherent = state.coherent();
    while !same_bytes(tick_node.head_order_id.as_slice(), NONE_ORDER_ID.as_slice())
        && !remaining.is_zero()
        invariant
            start_coherent == old(state).coherent(),
            start == (Matching {
                store: old(state).contents(),
                remaining: old(remaining)@,
                matches: *old(matches) as nat,
                best: *best,
                totals: old(totals)@,
                trades: old(trades)@,
            }),
            start_node == *old(tick_node),
            match_tick_run::<S>(
                old(state).model(),
                Walk {
                    remaining: old(remaining)@,
                    matches: *old(matches) as nat,
                    best: *best,
                    totals: old(totals)@,
                    trades: old(trades)@,
                },
                *old(tick_node),
                *taker,
                *rules,
                tick_price@,
            ) == match_tick_run::<S>(
                state.model(),
                Walk {
                    remaining: remaining@,
                    matches: *matches as nat,
                    best: *best,
                    totals: totals@,
                    trades: trades@,
                },
                *tick_node,
                *taker,
                *rules,
                tick_price@,
            ),
            state.coherent() ==> start_coherent,
            old(state).steady() ==> state.steady(),
            state.anchor() == old(state).anchor(),
            state.coherent() ==> match_tick_spec(start, start_node, *taker, *rules, tick_price@)
                == match_tick_spec(
                Matching {
                    store: state.contents(),
                    remaining: remaining@,
                    matches: *matches as nat,
                    best: *best,
                    totals: totals@,
                    trades: trades@,
                },
                *tick_node,
                *taker,
                *rules,
                tick_price@,
            ),
        decreases rules.max_matches_per_order - *matches,
    {
        proof {
            reveal_with_fuel(match_tick_run, 2);
        }
        if *matches >= rules.max_matches_per_order {
            return Err(CoreError::Invalid("maxMatchesPerOrder exceeded"));
        }
        *matches = *matches + 1;
        fill_maker(state, taker, rules, tick_price, tick_node, remaining, totals, trades)?;
    }
    Ok(())
}

/// The best tick of one side.
pub open spec fn best_of(best: MarketBest, side: Side) -> i32 {
    match side {
        Side::Buy => best.best_bid,
        Side::Sell => best.best_ask,
    }
}

/// `best` with `tick` as the best tick of `side`.
pub open spec fn with_best(best: MarketBest, side: Side, tick: i32) -> MarketBest {
    match side {
        Side::Buy => MarketBest { best_bid: tick, best_ask: best.best_ask },
        Side::Sell => MarketBest { best_bid: best.best_bid, best_ask: tick },
    }
}

/// The best ticks after the level `tick` of `side` is gone: when it was
/// the best of its side, the level after it becomes the best.
pub open spec fn best_without(best: MarketBest, side: Side, tick: i32, next: i32) -> MarketBest {
    if best_of(best, side) == tick {
        with_best(best, side, next)
    } else {
        best
    }
}

/// The best ticks after the level `tick` of `side` has come: it becomes
/// the best of its side when the side had none or it beats the best, a
/// higher bid or a lower ask.
pub open spec fn best_with(best: MarketBest, side: Side, tick: i32) -> MarketBest {
    let current = best_of(best, side);
    let better = match side {
        Side::Buy => tick > current,
        Side::Sell => tick < current,
    };
    if current == NONE_TICK || better {
        with_best(best, side, tick)
    } else {
        best
    }
}

/// The contents after the two neighbours of a level are pointed
/// elsewhere: the level `prev`, if there is one, gets `after_prev` as its
/// next, and then the level `next`, if there is one, gets `before_next`
/// as its previous. `None` when a neighbour is malformed.
pub open spec fn set_links_spec(
    store: Store,
    market: [u8; 32],
    side: Side,
    prev: i32,
    next: i32,
    after_prev: i32,
    before_next: i32,
) -> Option<Store> {
    let first = if prev != NONE_TICK {
        match stored_tick_node(store, market@, side.code(), prev) {
            Some(p) => Some(
                store.insert(
                    tick_node_key(market@, side.code(), prev),
                    TickNode {
                        prev_tick: p.prev_tick,
                        next_tick: after_prev,
                        head_order_id: p.head_order_id,
                        tail_order_id: p.tail_order_id,
                    }.encoded(),
                ),
            ),
            None => None,
        }
    } else {
        Some(store)
    };
    match first {
        Some(s1) => if next != NONE_TICK {
            match stored_tick_node(s1, market@, side.code(), next) {
                Some(n) => Some(
                    s1.insert(
                        tick_node_key(market@, side.code(), next),
                        TickNode {
                            prev_tick: before_next,
                            next_tick: n.next_tick,
                            head_order_id: n.head_order_id,
                            tail_order_id: n.tail_order_id,
                        }.encoded(),
                    ),
                ),
                None => None,
            }
        } else {
            Some(s1)
        },
        None => None,
    }
}

/// The contents and the best ticks after an emptied level is taken out of
/// the list of its side: its neighbours are joined, the best tick moves on
/// when the level was the best, the level is stored empty, and the best
/// ticks are stored. `None` when a neighbour is malformed.
pub open spec fn drop_tick_spec(
    store: Store,
    market: [u8; 32],
    side: Side,
    tick: i32,
    node: TickNode,
    best: MarketBest,
) -> Option<(Store, MarketBest)> {
    match set_links_spec(
        store,
        market,
        side,
        node.prev_tick,
        node.next_tick,
        node.next_tick,
        node.prev_tick,
    ) {
        Some(joined) => {
            let best1 = best_without(best, side, tick, node.next_tick);
            Some(
                (
                    joined.insert(
                        tick_node_key(market@, side.code(), tick),
                        empty_tick_node().encoded(),
                    ).insert(market_best_key(market@), best1.encoded()),
                    best1,
                ),
            )
        },
        None => None,
    }
}

/// Whether the price of a level crosses the taker's limit: at most the
/// limit for a buyer, at least the limit for a seller.
pub open spec fn crosses(side: Side, tick_price: nat, limit: nat) -> bool {
    match side {
        Side::Buy => tick_price <= limit,
        Side::Sell => tick_price >= limit,
    }
}

/// One step of the walk over the other side's levels, from the best one
/// on, and whether the walk goes on after it.
///
/// The walk ends when the side has no level left, when the best level
/// does not cross the limit, and when nothing remains to fill. Otherwise
/// the level is matched; an emptied level is taken out of the list and a
/// level with orders left is stored back; and the walk goes on if
/// quantity remains. `None` when the price of the level cannot be
/// computed, a record is malformed, or the matching is refused.
#[verifier::opaque]
pub open spec fn match_step_spec(m: Matching, taker: Taker, rules: Rules) -> Option<
    (Matching, bool),
> {
    let book = taker.side.other();
    let current = best_of(m.best, book);
    if current == NONE_TICK {
        Some((m, false))
    } else {
        match price_of(current, rules.tick_size@) {
            Some(tick_price) => {
                if !crosses(taker.side, tick_price, taker.limit_price@) || m.remaining == 0 {
                    Some((m, false))
                } else {
                    match stored_tick_node(m.store, taker.market_id@, book.code(), current) {
                        Some(node) => match match_tick_spec(m, node, taker, rules, tick_price) {
                            Some((m1, node1)) => {
                                let closed = if node1.head_order_id@ == NONE_ORDER_ID@ {
                                    drop_tick_spec(
                                        m1.store,
                                        taker.market_id,
                                        book,
                                        current,
                                        node1,
                                        m1.best,
                                    )
                                } else {
                                    Some(
                                        (
                                            m1.store.insert(
                                                tick_node_key(
                                                    taker.market_id@,
                                                    book.code(),
                                                    current,
                                                ),
                                                node1.encoded(),
                                            ),
                                            m1.best,
                                        ),
                                    )
                                };
                                match closed {
                                    Some((s2, best2)) => Some(
                                        (
                                            Matching {
                                                store: s2,
                                                remaining: m1.remaining,
                                                matches: m1.matches,
                                                best: best2,
                                                totals: m1.totals,
                                                trades: m1.trades,
                                            },
                                            m1.remaining != 0,
                                        ),
                                    ),
                                    None => None,
                                }
                            },
                            None => None,
                        },
                        None => None,
                    }
                }
            },
            None => None,
        }
    }
}

/// The walk over the other side's levels: steps are taken until one ends
/// the walk. `None` when a step is refused or the walk takes more than
/// `fuel` further steps.
pub open spec fn match_orders_spec(m: Matching, taker: Taker, rules: Rules, fuel: nat) -> Option<
    Matching,
>
    decreases fuel,
{
    match match_step_spec(m, taker, rules) {
        Some((m1, more)) => if !more {
            Some(m1)
        } else if fuel == 0 {
            None
        } else {
            match_orders_spec(m1, taker, rules, (fuel - 1) as nat)
        },
        None => None,
    }
}

/// Whether a price level exists: a level exists as long as it has orders.
pub open spec fn level_exists(node: TickNode) -> bool {
    node.head_order_id@ != NONE_ORDER_ID@
}

/// Whether the hints for a new level `tick` of `side` fit the book: the
/// level before it exists and points on to the level after it, the level
/// after it exists and points back to the level before it, and the new
/// level lies strictly between the two in the order of its side, bids
/// descending and asks ascending. With no level before it, the level
/// after it must be the best of the side, unless the side has none.
pub open spec fn hints_fit(
    store: Store,
    market: [u8; 32],
    side: Side,
    tick: i32,
    prev: i32,
    next: i32,
    best: MarketBest,
) -> bool {
    &&& if prev != NONE_TICK {
        &&& stored_tick_node(store, market@, side.code(), prev) is Some
        &&& level_exists(stored_tick_node(store, market@, side.code(), prev).unwrap())
        &&& stored_tick_node(store, market@, side.code(), prev).unwrap().next_tick == next
        &&& match side {
            Side::Buy => prev > tick,
            Side::Sell => prev < tick,
        }
    } else {
        best_of(best, side) == next || best_of(best, side) == NONE_TICK
    }
    &&& next != NONE_TICK ==> {
        &&& stored_tick_node(store, market@, side.code(), next) is Some
        &&& level_exists(stored_tick_node(store, market@, side.code(), next).unwrap())
        &&& stored_tick_node(store, market@, side.code(), next).unwrap().prev_tick == prev
        &&& match side {
            Side::Buy => next < tick,
            Side::Sell => next > tick,
        }
    }
}

/// The contents and the best ticks after an order comes to rest at the
/// level `tick` of its side.
///
/// At a level that has orders the order joins the tail of the queue. A
/// level without orders is new: the hints must fit, the neighbours are
/// pointed at the new level, the level takes the hints as its links and
/// the order as head and tail, and the best ticks are updated and stored.
/// Then the level, the order as open with `qty` left, and its queue links
/// are stored. `None` when a record is malformed or the hints do not fit.
#[verifier::opaque]
pub open spec fn place_resting_spec(
    store: Store,
    market: [u8; 32],
    order_id: [u8; 32],
    trader: [u8; 20],
    side: Side,
    tick: i32,
    qty: nat,
    tif: TimeInForce,
    prev_hint: i32,
    next_hint: i32,
    best: MarketBest,
) -> Option<(Store, MarketBest)> {
    match stored_tick_node(store, market@, side.code(), tick) {
        Some(node) => {
            let active = node.head_order_id@ != NONE_ORDER_ID@;
            let old_tail = if active {
                node.tail_order_id
            } else {
                NONE_ORDER_ID
            };
            let linked: Option<(Store, TickNode, MarketBest)> = if !active {
                if !hints_fit(store, market, side, tick, prev_hint, next_hint, best) {
                    None
                } else {
                    match set_links_spec(store, market, side, prev_hint, next_hint, tick, tick) {
                        Some(s1) => {
                            let best1 = best_with(best, side, tick);
                            Some(
                                (
                                    s1.insert(market_best_key(market@), best1.encoded()),
                                    TickNode {
                                        prev_tick: prev_hint,
                                        next_tick: next_hint,
                                        head_order_id: order_id,
                                        tail_order_id: order_id,
                                    },
                                    best1,
                                ),
                            )
                        },
                        None => None,
                    }
                }
            } else {
                let tail_id = node.tail_order_id;
                let joined = if tail_id@ != NONE_ORDER_ID@ {
                    match stored_order_node(store, tail_id@) {
                        Some(t) => Some(
                            store.insert(
                                order_node_key(tail_id@),
                                OrderNode {
                                    prev_order_id: t.prev_order_id,
                                    next_order_id: order_id,
                                }.encoded(),
                            ),
                        ),
                        None => None,
                    }
                } else {
                    Some(store)
                };
                match joined {
                    Some(s1) => Some(
                        (
                            s1,
                            TickNode {
                                prev_tick: node.prev_tick,
                                next_tick: node.next_tick,
                                head_order_id: node.head_order_id,
                                tail_order_id: order_id,
                            },
                            best,
                        ),
                    ),
                    None => None,
                }
            };
            match linked {
                Some((s2, node2, best2)) => Some(
                    (
                        s2.insert(tick_node_key(market@, side.code(), tick), node2.encoded()).insert(
                            order_key(order_id@),
                            Order {
                                owner: trader,
                                side,
                                tick,
                                qty_remaining: u256(qty),
                                tif,
                                status: OrderStatus::Open,
                            }.encoded(),
                        ).insert(
                            order_node_key(order_id@),
                            OrderNode {
                                prev_order_id: old_tail,
                                next_order_id: NONE_ORDER_ID,
                            }.encoded(),
                        ),
                        best2,
                    ),
                ),
                None => None,
            }
        },
        None => None,
    }
}

/// The contents after an order leaves the queue of the level `tick` of
/// its side.
///
/// The order before it, or else the level's head, is pointed at the order
/// after it; the order after it, or else the level's tail, is pointed at
/// the order before it; and the links of the order are cleared. A level
/// left without a head is taken out of the list of its side, with the
/// best ticks read afresh; another level is stored back. `None` when a
/// record is malformed.
#[verifier::opaque]
pub open spec fn remove_from_book_spec(
    store: Store,
    market: [u8; 32],
    side: Side,
    tick: i32,
    order_id: [u8; 32],
) -> Option<Store> {
    if stored_tick_node(store, market@, side.code(), tick) is None || stored_order_node(
        store,
        order_id@,
    ) is None {
        None
    } else {
        let node = stored_tick_node(store, market@, side.code(), tick).unwrap();
        let links = stored_order_node(store, order_id@).unwrap();
        let prev_id = links.prev_order_id;
        let next_id = links.next_order_id;
        let first: Option<(Store, TickNode)> = if prev_id@ != NONE_ORDER_ID@ {
            match stored_order_node(store, prev_id@) {
                Some(p) => Some(
                    (
                        store.insert(
                            order_node_key(prev_id@),
                            OrderNode {
                                prev_order_id: p.prev_order_id,
                                next_order_id: next_id,
                            }.encoded(),
                        ),
                        node,
                    ),
                ),
                None => None,
            }
        } else {
            Some(
                (
                    store,
                    TickNode {
                        prev_tick: node.prev_tick,
                        next_tick: node.next_tick,
                        head_order_id: next_id,
                        tail_order_id: node.tail_order_id,
                    },
                ),
            )
        };
        match first {
            Some((s1, n1)) => {
                let second: Option<(Store, TickNode)> = if next_id@ != NONE_ORDER_ID@ {
                    match stored_order_node(s1, next_id@) {
                        Some(n) => Some(
                            (
                                s1.insert(
                                    order_node_key(next_id@),
                                    OrderNode {
                                        prev_order_id: prev_id,
                                        next_order_id: n.next_order_id,
                                    }.encoded(),
                                ),
                                n1,
                            ),
                        ),
                        None => None,
                    }
                } else {
                    Some(
                        (
                            s1,
                            TickNode {
                                prev_tick: n1.prev_tick,
                                next_tick: n1.next_tick,
                                head_order_id: n1.head_order_id,
                                tail_order_id: prev_id,
                            },
                        ),
                    )
                };
                match second {
                    Some((s2, n2)) => {
                        let s3 = s2.insert(order_node_key(order_id@), empty_order_node().encoded());
                        if n2.head_order_id@ == NONE_ORDER_ID@ {
                            match set_links_spec(
                                s3,
                                market,
                                side,
                                n2.prev_tick,
                                n2.next_tick,
                                n2.next_tick,
                                n2.prev_tick,
                            ) {
                                Some(s4) => match stored_market_best(s4, market@) {
                                    Some(best) => Some(
                                        s4.insert(
                                            tick_node_key(market@, side.code(), tick),
                                            empty_tick_node().encoded(),
                                        ).insert(
                                            market_best_key(market@),
                                            best_without(best, side, tick, n2.next_tick).encoded(),
                                        ),
                                    ),
                                    None => None,
                                },
                                None => None,
                            }
                        } else {
                            Some(s3.insert(tick_node_key(market@, side.code(), tick), n2.encoded()))
                        }
                    },
                    None => None,
                }
            },
            None => None,
        }
    }
}

/// Whether an order id is the one that stands for "no order".
fn is_none_order(id: &[u8; 32]) -> (r: bool)
    ensures
        r == (id@ == NONE_ORDER_ID@),
{
    same_bytes(id.as_slice(), NONE_ORDER_ID.as_slice())
}

/// Points the two neighbours of a level elsewhere.
fn set_links<S: StateAccess>(
    state: &mut S,
    market: &[u8; 32],
    side: Side,
    prev: i32,
    next: i32,
    after_prev: i32,
    before_next: i32,
) -> (r: Result<(), CoreError>)
    ensures
        final(state).model() == set_links_run::<S>(
            old(state).model(),
            *market,
            side,
            prev,
            next,
            after_prev,
            before_next,
        ).0,
        outcome(r, set_links_run::<S>(
            old(state).model(),
            *market,
            side,
            prev,
            next,
            after_prev,
            before_next,
        ).1),
        final(state).coherent() ==> old(state).coherent(),
        old(state).steady() ==> final(state).steady(),
        final(state).anchor() == old(state).anchor(),
        r is Ok && final(state).coherent() ==> set_links_spec(
            old(state).contents(),
            *market,
            side,
            prev,
            next,
            after_prev,
            before_next,
        ) == Some(final(state).contents()),
        r is Err && final(state).coherent() ==> set_links_spec(
            old(state).contents(),
            *market,
            side,
            prev,
            next,
            after_prev,
            before_next,
        ) is None,
{
    if prev != NONE_TICK {
        let mut prev_node = get_tick_node(state, market, side.as_u8(), prev)?;
        prev_node.next_tick = after_prev;
        set_tick_node(state, market, side.as_u8(), prev, &prev_node)?;
    }
    if next != NONE_TICK {
        let mut next_node = get_tick_node(state, market, side.as_u8(), next)?;
        next_node.prev_tick = before_next;
        set_tick_node(state, market, side.as_u8(), next, &next_node)?;
    }
    Ok(())
}

/// The best ticks after the level `tick` of `side` is gone.
fn best_after_drop(best: &MarketBest, side: Side, tick: i32, next: i32) -> (r: MarketBest)
    ensures
        r == best_without(*best, side, tick, next),
{
    let mut out = *best;
    match side {
        Side::Buy => {
            if out.best_bid == tick {
                out.best_bid = next;
            }
        },
        Side::Sell => {
            if out.best_ask == tick {
                out.best_ask = next;
            }
        },
    }
    out
}

/// The contents and the best ticks after a level that was matched is
/// closed: an emptied level is taken out of its list, and a level with
/// orders left is stored back.
pub open spec fn close_level_spec(
    store: Store,
    market: [u8; 32],
    book: Side,
    current: i32,
    node: TickNode,
    best: MarketBest,
) -> Option<(Store, MarketBest)> {
    if node.head_order_id@ == NONE_ORDER_ID@ {
        drop_tick_spec(store, market, book, current, node, best)
    } else {
        Some((store.insert(tick_node_key(market@, book.code(), current), node.encoded()), best))
    }
}

/// Closes a level that was matched, and gives the best ticks afterwards.
fn close_level<S: StateAccess>(
    state: &mut S,
    market: &[u8; 32],
    book: Side,
    current: i32,
    tick_node: &TickNode,
    best: &MarketBest,
) -> (r: Result<MarketBest, CoreError>)
    ensures
        final(state).model() == close_level_run::<S>(
            old(state).model(),
            *market,
            book,
            current,
            *tick_node,
            *best,
        ).0,
        outcome(r, close_level_run::<S>(
            old(state).model(),
            *market,
            book,
            current,
            *tick_node,
            *best,
        ).1),
        final(state).coherent() ==> old(state).coherent(),
        old(state).steady() ==> final(state).steady(),
        final(state).anchor() == old(state).anchor(),
        r is Ok && final(state).coherent() ==> close_level_spec(
            old(state).contents(),
            *market,
            book,
            current,
            *tick_node,
            *best,
        ) == Some((final(state).contents(), r->Ok_0)),
        r is Err && final(state).coherent() ==> close_level_spec(
            old(state).contents(),
            *market,
            book,
            current,
            *tick_node,
            *best,
        ) is None,
{
    if is_none_order(&tick_node.head_order_id) {
        let prev_tick = tick_node.prev_tick;
        let next_tick = tick_node.next_tick;
        set_links(state, market, book, prev_tick, next_tick, next_tick, prev_tick)?;
        let moved = best_after_drop(best, book, current, next_tick);
        set_tick_node(
            state,
            market,
            book.as_u8(),
            current,
            &TickNode {
                prev_tick: NONE_TICK,
                next_tick: NONE_TICK,
                head_order_id: NONE_ORDER_ID,
                tail_order_id: NONE_ORDER_ID,
            },
        )?;
        set_market_best(state, market, &moved)?;
        Ok(moved)
    } else {
        set_tick_node(state, market, book.as_u8(), current, tick_node)?;
        Ok(*best)
    }
}

/// Takes one step of the walk over the other side's levels.
fn match_step<S: StateAccess>(
    state: &mut S,
    taker: &Taker,
    rules: &Rules,
    remaining: &mut U256,
    matches: &mut u32,
    best: &mut MarketBest,
    totals: &mut Vec<FeeTotal>,
    trades: &mut Vec<TradeRecord>,
) -> (r: Result<bool, CoreError>)
    ensures
        ({
            let run = match_step_run::<S>(
                old(state).model(),
                Walk {
                    remaining: old(remaining)@,
                    matches: *old(matches) as nat,
                    best: *old(best),
                    totals: old(totals)@,
                    trades: old(trades)@,
                },
                *taker,
                *rules,
            );
            &&& final(state).model() == run.0
            &&& r is Ok <==> run.1 is Ok
            &&& r matches Err(e) ==> has_cause(e, run.1->Err_0)
            &&& r is Ok ==> run.1 == Ok::<_, Cause>(
                (
                    Walk {
                        remaining: final(remaining)@,
                        matches: *final(matches) as nat,
                        best: *final(best),
                        totals: final(totals)@,
                        trades: final(trades)@,
                    },
                    r->Ok_0,
                ),
            )
        }),
        final(state).coherent() ==> old(state).coherent(),
        old(state).steady() ==> final(state).steady(),
        final(state).anchor() == old(state).anchor(),
        r is Ok && final(state).coherent() ==> match_step_spec(
            Matching {
                store: old(state).contents(),
                remaining: old(remaining)@,
                matches: *old(matches) as nat,
                best: *old(best),
                totals: old(totals)@,
                trades: old(trades)@,
            },
            *taker,
            *rules,
        ) == Some(
            (
                Matching {
                    store: final(state).contents(),
                    remaining: final(remaining)@,
                    matches: *final(matches) as nat,
                    best: *final(best),
                    totals: final(totals)@,
                    trades: final(trades)@,
                },
                r->Ok_0,
            ),
        ),
        r is Err && final(state).coherent() ==> match_step_spec(
            Matching {
                store: old(state).contents(),
                remaining: old(remaining)@,
                matches: *old(matches) as nat,
                best: *old(best),
                totals: old(totals)@,
                trades: old(trades)@,
            },
            *taker,
            *rules,
        ) is None,
{
    proof {
        reveal(match_step_spec);
        reveal(match_step_run);
    }
    let book = taker.side.opposite();
    let current_tick = match taker.side {
        Side::Buy => best.best_ask,
        Side::Sell => best.best_bid,
    };
    if current_tick == NONE_TICK {
        return Ok(false);
    }
    let tick_price = price_from_tick(current_tick, rules.tick_size)?;
    let price_ok = match taker.side {
        Side::Buy => tick_price.le(&taker.limit_price),
        Side::Sell => tick_price.ge(&taker.limit_price),
    };
    if !price_ok || remaining.is_zero() {
        return Ok(false);
    }
    let mut tick_node = get_tick_node(state, &taker.market_id, book.as_u8(), current_tick)?;
    let fixed_best = *best;
    match_tick(
        state,
        taker,
        rules,
        tick_price,
        &mut tick_node,
        remaining,
        matches,
        &fixed_best,
        totals,
        trades,
    )?;
    let moved = close_level(state, &taker.market_id, book, current_tick, &tick_node, &fixed_best)?;
    *best = moved;
    Ok(!remaining.is_zero())
}

/// Walks the other side's levels from the best one on and fills what crosses.
fn match_orders<S: StateAccess>(
    state: &mut S,
    taker: &Taker,
    rules: &Rules,
    remaining: &mut U256,
    best: &mut MarketBest,
    totals: &mut Vec<FeeTotal>,
    trades: &mut Vec<TradeRecord>,
) -> (r: Result<(), CoreError>)
    ensures
        ({
            let run = match_orders_run::<S>(
                old(state).model(),
                Walk {
                    remaining: old(remaining)@,
                    matches: 0,
                    best: *old(best),
                    totals: old(totals)@,
                    trades: old(trades)@,
                },
                *taker,
                *rules,
                u64::MAX as nat,
            );
            &&& final(state).model() == run.0
            &&& r is Ok <==> run.1 is Ok
            &&& r matches Err(e) ==> has_cause(e, run.1->Err_0)
            &&& r is Ok ==> {
                &&& run.1->Ok_0.remaining == final(remaining)@
                &&& run.1->Ok_0.best == *final(best)
                &&& run.1->Ok_0.totals == final(totals)@
                &&& run.1->Ok_0.trades == final(trades)@
            }
        }),
        final(state).coherent() ==> old(state).coherent(),
        old(state).steady() ==> final(state).steady(),
        final(state).anchor() == old(state).anchor(),
        r is Ok && final(state).coherent() ==> ({
            let walked = match_orders_spec(
                Matching {
                    store: old(state).contents(),
                    remaining: old(remaining)@,
                    matches: 0,
                    best: *old(best),
                    totals: old(totals)@,
                    trades: old(trades)@,
                },
                *taker,
                *rules,
                u64::MAX as nat,
            );
            &&& walked is Some
            &&& walked.unwrap().store == final(state).contents()
            &&& walked.unwrap().remaining == final(remaining)@
            &&& walked.unwrap().best == *final(best)
            &&& walked.unwrap().totals == final(totals)@
            &&& walked.unwrap().trades == final(trades)@
        }),
        r is Err && final(state).coherent() ==> match_orders_spec(
                Matching {
                    store: old(state).contents(),
                    remaining: old(remaining)@,
                    matches: 0,
                    best: *old(best),
                    totals: old(totals)@,
                    trades: old(trades)@,
                },
                *taker,
                *rules,
                u64::MAX as nat,
            ) is None,
{
    let ghost start = Matching {
        store: state.contents(),
        remaining: remaining@,
        matches: 0,
        best: *best,
        totals: totals@,
        trades: trades@,
    };
    let ghost start_coherent = state.coherent();
    let mut matches: u32 = 0;
    let mut fuel: u64 = u64::MAX;
    let mut more = true;
    while more
        invariant
            start_coherent == old(state).coherent(),
            start == (Matching {
                store: old(state).contents(),
                remaining: old(remaining)@,
                matches: 0,
                best: *old(best),
                totals: old(totals)@,
                trades: old(trades)@,
            }),
            match_orders_run::<S>(
                old(state).model(),
                Walk {
                    remaining: old(remaining)@,
                    matches: 0,
                    best: *old(best),
                    totals: old(totals)@,
                    trades: old(trades)@,
                },
                *taker,
                *rules,
                u64::MAX as nat,
            ) == (if more {
                match_orders_run::<S>(
                    state.model(),
                    Walk {
                        remaining: remaining@,
                        matches: matches as nat,
                        best: *best,
                        totals: totals@,
                        trades: trades@,
                    },
                    *taker,
                    *rules,
                    fuel as nat,
                )
            } else {
                (
                    state.model(),
                    Ok::<Walk, Cause>(
                        Walk {
                            remaining: remaining@,
                            matches: matches as nat,
                            best: *best,
                            totals: totals@,
                            trades: trades@,
                        },
                    ),
                )
            }),
            state.coherent() ==> start_coherent,
            old(state).steady() ==> state.steady(),
            state.anchor() == old(state).anchor(),
            state.coherent() ==> (if more {
                match_orders_spec(start, *taker, *rules, u64::MAX as nat) == match_orders_spec(
                    Matching {
                        store: state.contents(),
                        remaining: remaining@,
                        matches: matches as nat,
                        best: *best,
                        totals: totals@,
                        trades: trades@,
                    },
                    *taker,
                    *rules,
                    fuel as nat,
                )
            } else {
                match_orders_spec(start, *taker, *rules, u64::MAX as nat) == Some(
                    Matching {
                        store: state.contents(),
                        remaining: remaining@,
                        matches: matches as nat,
                        best: *best,
                        totals: totals@,
                        trades: trades@,
                    },
                )
            }),
        decreases fuel + (if more { 1nat } else { 0nat }),
    {
        let again = match_step(state, taker, rules, remaining, &mut matches, best, totals, trades)?;
        if again {
            if fuel == 0 {
                return Err(CoreError::Invalid("tick walk too long"));
            }
            fuel = fuel - 1;
        }
        more = again;
    }
    Ok(())
}

/// Checks the hints for a new level against the book.
pub fn verify_tick_hints<S: StateAccess>(
    state: &mut S,
    market_id: &[u8; 32],
    side: Side,
    tick: i32,
    prev_tick: i32,
    next_tick: i32,
    best: &MarketBest,
) -> (r: Result<(), CoreError>)
    ensures
        final(state).model() == verify_tick_hints_run::<S>(
            old(state).model(),
            *market_id,
            side,
            tick,
            prev_tick,
            next_tick,
            *best,
        ).0,
        outcome(r, verify_tick_hints_run::<S>(
            old(state).model(),
            *market_id,
            side,
            tick,
            prev_tick,
            next_tick,
            *best,
        ).1),
        final(state).contents() == old(state).contents(),
        final(state).coherent() ==> old(state).coherent(),
        old(state).steady() ==> final(state).steady(),
        final(state).anchor() == old(state).anchor(),
        r is Ok && final(state).coherent() ==> hints_fit(
            old(state).contents(),
            *market_id,
            side,
            tick,
            prev_tick,
            next_tick,
            *best,
        ),
        r is Err && final(state).coherent() ==> !hints_fit(
            old(state).contents(),
            *market_id,
            side,
            tick,
            prev_tick,
            next_tick,
            *best,
        ),
{
    if prev_tick != NONE_TICK {
        let prev_node = get_tick_node(state, market_id, side.as_u8(), prev_tick)?;
        if is_none_order(&prev_node.head_order_id) {
            return Err(CoreError::Invalid("prev tick hint missing"));
        }
        if prev_node.next_tick != next_tick {
            return Err(CoreError::Invalid("prev tick hint mismatch"));
        }
        match side {
            Side::Buy => {
                if prev_tick <= tick {
                    return Err(CoreError::Invalid("bid prev tick order"));
                }
            },
            Side::Sell => {
                if prev_tick >= tick {
                    return Err(CoreError::Invalid("ask prev tick order"));
                }
            },
        }
    } else {
        match side {
            Side::Buy => {
                if best.best_bid != next_tick && best.best_bid != NONE_TICK {
                    return Err(CoreError::Invalid("best bid mismatch"));
                }
            },
            Side::Sell => {
                if best.best_ask != next_tick && best.best_ask != NONE_TICK {
                    return Err(CoreError::Invalid("best ask mismatch"));
                }
            },
        }
    }
    if next_tick != NONE_TICK {
        let next_node = get_tick_node(state, market_id, side.as_u8(), next_tick)?;
        if is_none_order(&next_node.head_order_id) {
            return Err(CoreError::Invalid("next tick hint missing"));
        }
        if next_node.prev_tick != prev_tick {
            return Err(CoreError::Invalid("next tick hint mismatch"));
        }
        match side {
            Side::Buy => {
                if next_tick >= tick {
                    return Err(CoreError::Invalid("bid next tick order"));
                }
            },
            Side::Sell => {
                if next_tick <= tick {
                    return Err(CoreError::Invalid("ask next tick order"));
                }
            },
        }
    }
    Ok(())
}

/// The best ticks after the level `tick` of `side` has come.
fn best_after_add(best: &MarketBest, side: Side, tick: i32) -> (r: MarketBest)
    ensures
        r == best_with(*best, side, tick),
{
    let mut out = *best;
    match side {
        Side::Buy => {
            if out.best_bid == NONE_TICK || tick > out.best_bid {
                out.best_bid = tick;
            }
        },
        Side::Sell => {
            if out.best_ask == NONE_TICK || tick < out.best_ask {
                out.best_ask = tick;
            }
        },
    }
    out
}

/// Puts an order to rest at the level `tick` of its side.
pub fn place_resting<S: StateAccess>(
    state: &mut S,
    market_id: &[u8; 32],
    order_id: &[u8; 32],
    trader: &[u8; 20],
    side: Side,
    tick: i32,
    qty_remaining: U256,
    tif: TimeInForce,
    prev_tick_hint: i32,
    next_tick_hint: i32,
    best: &mut MarketBest,
) -> (r: Result<(), CoreError>)
    ensures
        ({
            let run = place_resting_run::<S>(
                old(state).model(),
                *market_id,
                *order_id,
                *trader,
                side,
                tick,
                qty_remaining@,
                tif,
                prev_tick_hint,
                next_tick_hint,
                *old(best),
            );
            &&& final(state).model() == run.0
            &&& r is Ok <==> run.1 is Ok
            &&& r matches Err(e) ==> has_cause(e, run.1->Err_0)
            &&& r is Ok ==> run.1 == Ok::<MarketBest, Cause>(*final(best))
        }),
        final(state).coherent() ==> old(state).coherent(),
        old(state).steady() ==> final(state).steady(),
        final(state).anchor() == old(state).anchor(),
        r is Ok && final(state).coherent() ==> place_resting_spec(
            old(state).contents(),
            *market_id,
            *order_id,
            *trader,
            side,
            tick,
            qty_remaining@,
            tif,
            prev_tick_hint,
            next_tick_hint,
            *old(best),
        ) == Some((final(state).contents(), *final(best))),
        r is Err && final(state).coherent() ==> place_resting_spec(
            old(state).contents(),
            *market_id,
            *order_id,
            *trader,
            side,
            tick,
            qty_remaining@,
            tif,
            prev_tick_hint,
            next_tick_hint,
            *old(best),
        ) is None,
{
    proof {
        reveal(place_resting_spec);
        reveal(place_resting_run);
        lemma_u256(qty_remaining, 0);
    }
    let mut tick_node = get_tick_node(state, market_id, side.as_u8(), tick)?;
    let active = !is_none_order(&tick_node.head_order_id);
    let old_tail = if active {
        tick_node.tail_order_id
    } else {
        NONE_ORDER_ID
    };
    if !active {
        let seen = *best;
        verify_tick_hints(state, market_id, side, tick, prev_tick_hint, next_tick_hint, &seen)?;
        tick_node.prev_tick = prev_tick_hint;
        tick_node.next_tick = next_tick_hint;
        tick_node.head_order_id = *order_id;
        tick_node.tail_order_id = *order_id;
        set_links(state, market_id, side, prev_tick_hint, next_tick_hint, tick, tick)?;
        let moved = best_after_add(&seen, side, tick);
        *best = moved;
        set_market_best(state, market_id, &moved)?;
    } else {
        let tail_id = tick_node.tail_order_id;
        if !is_none_order(&tail_id) {
            let mut tail_node = get_order_node(state, &tail_id)?;
            tail_node.next_order_id = *order_id;
            set_order_node(state, &tail_id, &tail_node)?;
        }
        tick_node.tail_order_id = *order_id;
    }
    set_tick_node(state, market_id, side.as_u8(), tick, &tick_node)?;
    set_order(
        state,
        order_id,
        &Order {
            owner: *trader,
            side,
            tick,
            qty_remaining,
            tif,
            status: OrderStatus::Open,
        },
    )?;
    set_order_node(
        state,
        order_id,
        &OrderNode { prev_order_id: old_tail, next_order_id: NONE_ORDER_ID },
    )
}

/// Takes an order out of the queue of the level `tick` of its side.
pub fn remove_from_book<S: StateAccess>(
    state: &mut S,
    market_id: &[u8; 32],
    side: Side,
    tick: i32,
    order_id: &[u8; 32],
) -> (r: Result<(), CoreError>)
    ensures
        final(state).model() == remove_from_book_run::<S>(
            old(state).model(),
            *market_id,
            side,
            tick,
            *order_id,
        ).0,
        outcome(r, remove_from_book_run::<S>(
            old(state).model(),
            *market_id,
            side,
            tick,
            *order_id,
        ).1),
        final(state).coherent() ==> old(state).coherent(),
        old(state).steady() ==> final(state).steady(),
        final(state).anchor() == old(state).anchor(),
        r is Ok && final(state).coherent() ==> remove_from_book_spec(
            old(state).contents(),
            *market_id,
            side,
            tick,
            *order_id,
        ) == Some(final(state).contents()),
        r is Err && final(state).coherent() ==> remove_from_book_spec(
            old(state).contents(),
            *market_id,
            side,
            tick,
            *order_id,
        ) is None,
{
    proof {
        reveal(remove_from_book_spec);
        reveal(remove_from_book_run);
    }
    let mut tick_node = get_tick_node(state, market_id, side.as_u8(), tick)?;
    let order_node = get_order_node(state, order_id)?;
    let prev_id = order_node.prev_order_id;
    let next_id = order_node.next_order_id;
    if !is_none_order(&prev_id) {
        let mut prev_node = get_order_node(state, &prev_id)?;
        prev_node.next_order_id = next_id;
        set_order_node(state, &prev_id, &prev_node)?;
    } else {
        tick_node.head_order_id = next_id;
    }
    if !is_none_order(&next_id) {
        let mut next_node = get_order_node(state, &next_id)?;
        next_node.prev_order_id = prev_id;
        set_order_node(state, &next_id, &next_node)?;
    } else {
        tick_node.tail_order_id = prev_id;
    }
    set_order_node(
        state,
        order_id,
        &OrderNode { prev_order_id: NONE_ORDER_ID, next_order_id: NONE_ORDER_ID },
    )?;
    if is_none_order(&tick_node.head_order_id) {
        let prev_tick = tick_node.prev_tick;
        let next_tick = tick_node.next_tick;
        set_links(state, market_id, side, prev_tick, next_tick, next_tick, prev_tick)?;
        let best = get_market_best(state, market_id)?;
        let moved = best_after_drop(&best, side, tick, next_tick);
        set_tick_node(
            state,
            market_id,
            side.as_u8(),
            tick,
            &TickNode {
                prev_tick: NONE_TICK,
                next_tick: NONE_TICK,
                head_order_id: NONE_ORDER_ID,
                tail_order_id: NONE_ORDER_ID,
            },
        )?;
        set_market_best(state, market_id, &moved)
    } else {
        set_tick_node(state, market_id, side.as_u8(), tick, &tick_node)
    }
}

/// What a `Place` message asks for.
#[derive(Clone, Copy, Debug)]
pub struct NewOrder {
    pub trader: [u8; 20],
    pub order_id: [u8; 32],
    pub side: Side,
    pub tif: TimeInForce,
    pub tick_index: i32,
    pub qty_base: U256,
    pub prev_tick_hint: i32,
    pub next_tick_hint: i32,
}

/// Where a batch stands between two messages.
pub struct BatchState {
    pub store: Store,
    pub totals: Seq<FeeTotal>,
    pub trades: Seq<TradeRecord>,
}

/// The order as it is stored once it is done: nothing left, and filled
/// or cancelled.
pub open spec fn closed_order(order: NewOrder, status: OrderStatus) -> Order {
    Order {
        owner: order.trader,
        side: order.side,
        tick: order.tick_index,
        qty_remaining: u256(0),
        tif: order.tif,
        status,
    }
}

/// The effect of placing an order.
///
/// The order id must be new and other than the id that stands for "no
/// order", the quantity positive and a multiple of the lot size, and the
/// tick not negative. The taker's funds are locked, the
/// other side of the book is walked from its best level, and what remains
/// is handled by the order's time in force: an immediate order releases
/// what is still locked and is stored closed, filled if nothing remains
/// and cancelled otherwise; a resting order is stored filled if nothing
/// remains and comes to rest at its level otherwise. `None` when any of
/// this is refused.
#[verifier::opaque]
pub open spec fn place_spec(
    store: Store,
    market: [u8; 32],
    rules: Rules,
    order: NewOrder,
    totals: Seq<FeeTotal>,
    trades: Seq<TradeRecord>,
) -> Option<BatchState> {
    let qty = order.qty_base@;
    if order.order_id@ == NONE_ORDER_ID@ || stored_order(store, order.order_id@) != Some(
        None::<Order>,
    ) || qty == 0
        || rules.lot_size@ == 0 || qty % rules.lot_size@ != 0 || price_of(
        order.tick_index,
        rules.tick_size@,
    ) is None {
        None
    } else {
        let price = price_of(order.tick_index, rules.tick_size@).unwrap();
        match lock_taker_spec(store, order.trader, order.side, price, qty, rules) {
            Some(locked) => match stored_market_best(locked, market@) {
                Some(best) => match match_orders_spec(
                    Matching { store: locked, remaining: qty, matches: 0, best, totals, trades },
                    Taker {
                        market_id: market,
                        trader: order.trader,
                        order_id: order.order_id,
                        side: order.side,
                        limit_price: u256(price),
                    },
                    rules,
                    u64::MAX as nat,
                ) {
                    Some(m) => match order.tif {
                        TimeInForce::Ioc => {
                            let released = if m.remaining != 0 {
                                release_spec(
                                    m.store,
                                    order.trader,
                                    order.side,
                                    m.remaining,
                                    price,
                                    rules,
                                )
                            } else {
                                Some(m.store)
                            };
                            match released {
                                Some(s) => Some(
                                    BatchState {
                                        store: s.insert(
                                            order_key(order.order_id@),
                                            closed_order(
                                                order,
                                                if m.remaining == 0 {
                                                    OrderStatus::Filled
                                                } else {
                                                    OrderStatus::Canceled
                                                },
                                            ).encoded(),
                                        ),
                                        totals: m.totals,
                                        trades: m.trades,
                                    },
                                ),
                                None => None,
                            }
                        },
                        TimeInForce::Gtc => {
                            if m.remaining == 0 {
                                Some(
                                    BatchState {
                                        store: m.store.insert(
                                            order_key(order.order_id@),
                                            closed_order(order, OrderStatus::Filled).encoded(),
                                        ),
                                        totals: m.totals,
                                        trades: m.trades,
                                    },
                                )
                            } else {
                                match place_resting_spec(
                                    m.store,
                                    market,
                                    order.order_id,
                                    order.trader,
                                    order.side,
                                    order.tick_index,
                                    m.remaining,
                                    order.tif,
                                    order.prev_tick_hint,
                                    order.next_tick_hint,
                                    m.best,
                                ) {
                                    Some((s, _best)) => Some(
                                        BatchState { store: s, totals: m.totals, trades: m.trades },
                                    ),
                                    None => None,
                                }
                            }
                        },
                    },
                    None => None,
                },
                None => None,
            },
            None => None,
        }
    }
}

/// The contents after an order is cancelled.
///
/// The order must be stored, owned by the trader and open. What it still
/// locks at the price of its tick is released, it is stored cancelled
/// with nothing left, and it leaves the queue of its level. `None` when
/// any of this is refused.
#[verifier::opaque]
pub open spec fn cancel_spec(
    store: Store,
    market: [u8; 32],
    rules: Rules,
    trader: [u8; 20],
    order_id: [u8; 32],
) -> Option<Store> {
    match stored_order(store, order_id@) {
        Some(Some(order)) => {
            if order.owner@ != trader@ || order.status != OrderStatus::Open {
                None
            } else {
                match price_of(order.tick, rules.tick_size@) {
                    Some(price) => match release_spec(
                        store,
                        trader,
                        order.side,
                        order.qty_remaining@,
                        price,
                        rules,
                    ) {
                        Some(released) => remove_from_book_spec(
                            released.insert(
                                order_key(order_id@),
                                Order {
                                    owner: order.owner,
                                    side: order.side,
                                    tick: order.tick,
                                    qty_remaining: u256(0),
                                    tif: order.tif,
                                    status: OrderStatus::Canceled,
                                }.encoded(),
                            ),
                            market,
                            order.side,
                            order.tick,
                            order_id,
                        ),
                        None => None,
                    },
                    None => None,
                }
            }
        },
        _ => None,
    }
}

/// The request of a `Place` message.
pub open spec fn new_order_of(message: Message) -> NewOrder
    recommends
        message is Place,
{
    NewOrder {
        trader: message->Place_trader,
        order_id: message->Place_order_id,
        side: message->side,
        tif: message->tif,
        tick_index: message->tick_index,
        qty_base: message->qty_base,
        prev_tick_hint: message->prev_tick_hint,
        next_tick_hint: message->next_tick_hint,
    }
}

/// Whether an order is certain to come to rest in full, by the best
/// ticks alone: its tick has a price, and the other side has no level,
/// or its best level has a price that does not cross the order's limit.
/// Nothing is then filled.
pub open spec fn certain_to_rest(best: MarketBest, rules: Rules, order: NewOrder) -> bool {
    match price_of(order.tick_index, rules.tick_size@) {
        Some(limit) => {
            let other = best_of(best, order.side.other());
            other == NONE_TICK || (match price_of(other, rules.tick_size@) {
                Some(price) => !crosses(order.side, price, limit),
                None => false,
            })
        },
        None => false,
    }
}

/// Whether the hints of a new order are admitted before anything is
/// written for it.
///
/// Only an order that stays until it is cancelled, is certain to come to
/// rest, and would open a level is examined: its hints must fit the
/// levels of its side. Every other order is admitted here, and one that
/// comes to rest after fills has its hints checked when it rests.
pub open spec fn early_hints_fit(store: Store, market: [u8; 32], rules: Rules, order: NewOrder) -> bool {
    order.tif != TimeInForce::Gtc || price_of(order.tick_index, rules.tick_size@) is None || (
    match stored_market_best(store, market@) {
        Some(best) => !certain_to_rest(best, rules, order) || (match stored_tick_node(
            store,
            market@,
            order.side.code(),
            order.tick_index,
        ) {
            Some(node) => level_exists(node) || hints_fit(
                store,
                market,
                order.side,
                order.tick_index,
                order.prev_tick_hint,
                order.next_tick_hint,
                best,
            ),
            None => false,
        }),
        None => false,
    })
}

/// The effect of one message.
///
/// The signature must be the sender's, the nonce must be one more than
/// the sender's stored nonce, and the hints of a new order that is
/// certain to rest must fit; nothing is written before. Then the nonce is stored and the
/// message is carried out, a placement or a cancellation. `None` when
/// any of this is refused.
#[verifier::opaque]
pub open spec fn message_spec(
    b: BatchState,
    market: [u8; 32],
    rules: Rules,
    domain_sep: [u8; 32],
    signed: SignedMessage,
) -> Option<BatchState> {
    let message = signed.message;
    let trader = message.sender();
    if !signed_by(domain_sep@, message, signed.signature, trader@) {
        None
    } else {
        match stored_nonce(b.store, trader@) {
            Some(current) => {
                if message.sequence() != current + 1 || (message is Place && !early_hints_fit(
                    b.store,
                    market,
                    rules,
                    new_order_of(message),
                )) {
                    None
                } else {
                    let counted = b.store.insert(
                        nonce_key(trader@),
                        crate::bytes::be_bytes(message.sequence() as nat, 8),
                    );
                    match message {
                        Message::Place { .. } => place_spec(
                            counted,
                            market,
                            rules,
                            new_order_of(message),
                            b.totals,
                            b.trades,
                        ),
                        Message::Cancel { trader, order_id, .. } => match cancel_spec(
                            counted,
                            market,
                            rules,
                            trader,
                            order_id,
                        ) {
                            Some(s) => Some(
                                BatchState { store: s, totals: b.totals, trades: b.trades },
                            ),
                            None => None,
                        },
                    }
                }
            },
            None => None,
        }
    }
}

/// Whether the rules admit a batch of `count` messages: the count is
/// within the limit, the price scale is `10^18`, and makers pay no fee.
pub open spec fn rules_admit(rules: Rules, count: nat) -> bool {
    count <= rules.max_orders_per_batch && rules.price_scale@ == 1_000_000_000_000_000_000
        && rules.maker_fee_bps == 0
}

/// The effect of the messages in their order. `None` when one is refused.
pub open spec fn run_messages(
    b: BatchState,
    market: [u8; 32],
    rules: Rules,
    domain_sep: [u8; 32],
    messages: Seq<SignedMessage>,
) -> Option<BatchState>
    decreases messages.len(),
{
    if messages.len() == 0 {
        Some(b)
    } else {
        match message_spec(b, market, rules, domain_sep, messages[0]) {
            Some(b1) => run_messages(b1, market, rules, domain_sep, messages.skip(1)),
            None => None,
        }
    }
}

/// The effect of a batch: the contents, the fee totals and the trades
/// after every message. `None` when the rules do not admit the batch or
/// a message is refused.
pub open spec fn batch_spec(
    store: Store,
    market: [u8; 32],
    rules: Rules,
    domain_sep: [u8; 32],
    messages: Seq<SignedMessage>,
) -> Option<BatchState> {
    if !rules_admit(rules, messages.len()) {
        None
    } else {
        run_messages(
            BatchState { store, totals: Seq::empty(), trades: Seq::empty() },
            market,
            rules,
            domain_sep,
            messages,
        )
    }
}

/// Places an order.
fn place<S: StateAccess>(
    state: &mut S,
    market_id: &[u8; 32],
    rules: &Rules,
    order: &NewOrder,
    totals: &mut Vec<FeeTotal>,
    trades: &mut Vec<TradeRecord>,
) -> (r: Result<(), CoreError>)
    ensures
        ({
            let run = place_run::<S>(
                old(state).model(),
                *market_id,
                *rules,
                *order,
                old(totals)@,
                old(trades)@,
            );
            &&& final(state).model() == run.0
            &&& r is Ok <==> run.1 is Ok
            &&& r matches Err(e) ==> has_cause(e, run.1->Err_0)
            &&& r is Ok ==> run.1 == Ok::<Tally, Cause>(
                Tally { totals: final(totals)@, trades: final(trades)@ },
            )
        }),
        final(state).coherent() ==> old(state).coherent(),
        old(state).steady() ==> final(state).steady(),
        final(state).anchor() == old(state).anchor(),
        r is Ok && final(state).coherent() ==> place_spec(
            old(state).contents(),
            *market_id,
            *rules,
            *order,
            old(totals)@,
            old(trades)@,
        ) == Some(
            BatchState {
                store: final(state).contents(),
                totals: final(totals)@,
                trades: final(trades)@,
            },
        ),
        r is Err && final(state).coherent() ==> place_spec(
            old(state).contents(),
            *market_id,
            *rules,
            *order,
            old(totals)@,
            old(trades)@,
        ) is None,
{
    proof {
        reveal(place_spec);
        reveal(place_run);
    }
    if is_none_order(&order.order_id) {
        return Err(CoreError::Invalid("order id stands for no order"));
    }
    if get_order(state, &order.order_id)?.is_some() {
        return Err(CoreError::Invalid("order id already exists"));
    }
    if order.qty_base.is_zero() {
        return Err(CoreError::Invalid("qtyBase zero"));
    }
    check_lot_size(order.qty_base, rules.lot_size)?;
    let price = price_from_tick(order.tick_index, rules.tick_size)?;
    proof {
        lemma_u256(price, 0);
    }
    let mut remaining = order.qty_base;
    let taker = Taker {
        market_id: *market_id,
        trader: order.trader,
        order_id: order.order_id,
        side: order.side,
        limit_price: price,
    };
    lock_taker(state, &order.trader, order.side, price, order.qty_base, rules)?;
    let mut best = get_market_best(state, market_id)?;
    match_orders(state, &taker, rules, &mut remaining, &mut best, totals, trades)?;
    match order.tif {
        TimeInForce::Ioc => {
            if !remaining.is_zero() {
                release_remaining(state, &order.trader, order.side, remaining, price, rules)?;
            }
            let status = if remaining.is_zero() {
                OrderStatus::Filled
            } else {
                OrderStatus::Canceled
            };
            proof {
                lemma_u256(U256 { hi: 0, lo: 0 }, 0);
            }
            set_order(
                state,
                &order.order_id,
                &Order {
                    owner: order.trader,
                    side: order.side,
                    tick: order.tick_index,
                    qty_remaining: U256::zero(),
                    tif: order.tif,
                    status,
                },
            )
        },
        TimeInForce::Gtc => {
            if remaining.is_zero() {
                proof {
                    lemma_u256(U256 { hi: 0, lo: 0 }, 0);
                }
                set_order(
                    state,
                    &order.order_id,
                    &Order {
                        owner: order.trader,
                        side: order.side,
                        tick: order.tick_index,
                        qty_remaining: U256::zero(),
                        tif: order.tif,
                        status: OrderStatus::Filled,
                    },
                )
            } else {
                place_resting(
                    state,
                    market_id,
                    &order.order_id,
                    &order.trader,
                    order.side,
                    order.tick_index,
                    remaining,
                    order.tif,
                    order.prev_tick_hint,
                    order.next_tick_hint,
                    &mut best,
                )
            }
        },
    }
}

/// Cancels an order.
fn cancel<S: StateAccess>(
    state: &mut S,
    market_id: &[u8; 32],
    rules: &Rules,
    trader: &[u8; 20],
    order_id: &[u8; 32],
) -> (r: Result<(), CoreError>)
    ensures
        final(state).model() == cancel_run::<S>(
            old(state).model(),
            *market_id,
            *rules,
            *trader,
            *order_id,
        ).0,
        outcome(r, cancel_run::<S>(
            old(state).model(),
            *market_id,
            *rules,
            *trader,
            *order_id,
        ).1),
        final(state).coherent() ==> old(state).coherent(),
        old(state).steady() ==> final(state).steady(),
        final(state).anchor() == old(state).anchor(),
        r is Ok && final(state).coherent() ==> cancel_spec(
            old(state).contents(),
            *market_id,
            *rules,
            *trader,
            *order_id,
        ) == Some(final(state).contents()),
        r is Err && final(state).coherent() ==> cancel_spec(
            old(state).contents(),
            *market_id,
            *rules,
            *trader,
            *order_id,
        ) is None,
{
    proof {
        reveal(cancel_spec);
        reveal(cancel_run);
    }
    let mut order = match get_order(state, order_id)? {
        Some(order) => order,
        None => {
            return Err(CoreError::Invalid("order missing"));
        },
    };
    if !same_bytes(order.owner.as_slice(), trader.as_slice()) {
        return Err(CoreError::Invalid("cancel owner mismatch"));
    }
    if order.status != OrderStatus::Open {
        return Err(CoreError::Invalid("order not open"));
    }
    let price = price_from_tick(order.tick, rules.tick_size)?;
    release_remaining(state, trader, order.side, order.qty_remaining, price, rules)?;
    proof {
        lemma_u256(U256 { hi: 0, lo: 0 }, 0);
    }
    order.qty_remaining = U256::zero();
    order.status = OrderStatus::Canceled;
    set_order(state, order_id, &order)?;
    remove_from_book(state, market_id, order.side, order.tick, order_id)
}

/// Checks the hints of a new order before anything is written for it:
/// see `early_hints_fit`. Hints that are not admitted are `Invalid`.
fn check_hints_early<S: StateAccess>(
    state: &mut S,
    market_id: &[u8; 32],
    rules: &Rules,
    order: &NewOrder,
) -> (r: Result<(), CoreError>)
    ensures
        final(state).model() == early_hints_run::<S>(
            old(state).model(),
            *market_id,
            *rules,
            *order,
        ).0,
        outcome(r, early_hints_run::<S>(old(state).model(), *market_id, *rules, *order).1),
        final(state).contents() == old(state).contents(),
        final(state).coherent() ==> old(state).coherent(),
        old(state).steady() ==> final(state).steady(),
        final(state).anchor() == old(state).anchor(),
        final(state).coherent() ==> (r is Ok <==> early_hints_fit(
            old(state).contents(),
            *market_id,
            *rules,
            *order,
        )),
{
    match order.tif {
        TimeInForce::Ioc => Ok(()),
        TimeInForce::Gtc => {
            let limit = match price_from_tick(order.tick_index, rules.tick_size) {
                Ok(price) => price,
                Err(_) => {
                    return Ok(());
                },
            };
            let best = get_market_best(state, market_id)?;
            let other = match order.side {
                Side::Buy => best.best_ask,
                Side::Sell => best.best_bid,
            };
            if other != NONE_TICK {
                let price = match price_from_tick(other, rules.tick_size) {
                    Ok(price) => price,
                    Err(_) => {
                        return Ok(());
                    },
                };
                let crossing = match order.side {
                    Side::Buy => price.le(&limit),
                    Side::Sell => price.ge(&limit),
                };
                if crossing {
                    return Ok(());
                }
            }
            let node = get_tick_node(state, market_id, order.side.as_u8(), order.tick_index)?;
            if !is_none_order(&node.head_order_id) {
                return Ok(());
            }
            verify_tick_hints(
                state,
                market_id,
                order.side,
                order.tick_index,
                order.prev_tick_hint,
                order.next_tick_hint,
                &best,
            )
        },
    }
}

/// Carries out one message.
fn process_message<S: StateAccess>(
    state: &mut S,
    market_id: &[u8; 32],
    rules: &Rules,
    domain_sep: &[u8; 32],
    signed: &SignedMessage,
    totals: &mut Vec<FeeTotal>,
    trades: &mut Vec<TradeRecord>,
) -> (r: Result<(), CoreError>)
    ensures
        ({
            let run = message_run::<S>(
                old(state).model(),
                Tally { totals: old(totals)@, trades: old(trades)@ },
                *market_id,
                *rules,
                *domain_sep,
                *signed,
            );
            &&& final(state).model() == run.0
            &&& r is Ok <==> run.1 is Ok
            &&& r matches Err(e) ==> has_cause(e, run.1->Err_0)
            &&& r is Ok ==> run.1 == Ok::<Tally, Cause>(
                Tally { totals: final(totals)@, trades: final(trades)@ },
            )
        }),
        final(state).coherent() ==> old(state).coherent(),
        old(state).steady() ==> final(state).steady(),
        final(state).anchor() == old(state).anchor(),
        r is Ok && final(state).coherent() ==> message_spec(
            BatchState { store: old(state).contents(), totals: old(totals)@, trades: old(trades)@ },
            *market_id,
            *rules,
            *domain_sep,
            *signed,
        ) == Some(
            BatchState {
                store: final(state).contents(),
                totals: final(totals)@,
                trades: final(trades)@,
            },
        ),
        r is Err && final(state).coherent() ==> message_spec(
            BatchState { store: old(state).contents(), totals: old(totals)@, trades: old(trades)@ },
            *market_id,
            *rules,
            *domain_sep,
            *signed,
        ) is None,
{
    proof {
        reveal(message_spec);
        reveal(message_run);
    }
    let message = &signed.message;
    let trader = message.trader();
    verify_signature(domain_sep, message, &signed.signature, &trader)?;
    let nonce_value = message.nonce();
    let current_nonce = get_nonce(state, &trader)?;
    if current_nonce == u64::MAX || nonce_value != current_nonce + 1 {
        return Err(CoreError::Invalid("nonce mismatch"));
    }
    match message {
        Message::Place {
            trader,
            order_id,
            side,
            tif,
            tick_index,
            qty_base,
            prev_tick_hint,
            next_tick_hint,
            ..
        } => {
            let order = NewOrder {
                trader: *trader,
                order_id: *order_id,
                side: *side,
                tif: *tif,
                tick_index: *tick_index,
                qty_base: *qty_base,
                prev_tick_hint: *prev_tick_hint,
                next_tick_hint: *next_tick_hint,
            };
            check_hints_early(state, market_id, rules, &order)?;
        },
        Message::Cancel { .. } => {},
    }
    set_nonce(state, &trader, nonce_value)?;
    match message {
        Message::Place {
            trader,
            order_id,
            side,
            tif,
            tick_index,
            qty_base,
            prev_tick_hint,
            next_tick_hint,
            ..
        } => {
            let order = NewOrder {
                trader: *trader,
                order_id: *order_id,
                side: *side,
                tif: *tif,
                tick_index: *tick_index,
                qty_base: *qty_base,
                prev_tick_hint: *prev_tick_hint,
                next_tick_hint: *next_tick_hint,
            };
            place(state, market_id, rules, &order, totals, trades)
        },
        Message::Cancel { trader, order_id, .. } => cancel(
            state,
            market_id,
            rules,
            trader,
            order_id,
        ),
    }
}

/// Whether the rules admit a batch of `count` messages. Every refusal is `Invalid`.
pub fn check_rules(rules: &Rules, count: usize) -> (r: Result<(), CoreError>)
    ensures
        r is Ok <==> rules_admit(*rules, count as nat),
        r matches Err(e) ==> e is Invalid,
{
    if count > rules.max_orders_per_batch as usize {
        return Err(CoreError::Invalid("maxOrdersPerBatch exceeded"));
    }
    if rules.price_scale != U256::from_u128(1_000_000_000_000_000_000u128) {
        return Err(CoreError::Invalid("priceScale must be 1e18"));
    }
    if rules.maker_fee_bps != 0 {
        return Err(CoreError::Invalid("makerFeeBps must be zero"));
    }
    Ok(())
}

/// Applies a batch of signed messages to the state, in their order.
///
/// A batch that the rules do not admit fails with `Invalid` before the
/// state is touched. Otherwise every message is carried out in turn, and
/// the first failure ends the batch: nothing is retried, and what was
/// written before the failure is for the caller to discard. If the
/// accessor stayed coherent, the batch succeeds exactly when `batch_spec`
/// gives a result, and the contents, the trades and the fee totals are
/// then that result.
pub fn apply_batch<S: StateAccess>(
    state: &mut S,
    market_id: [u8; 32],
    rules: &Rules,
    domain_sep: [u8; 32],
    messages: &[SignedMessage],
) -> (r: Result<BatchOutput, CoreError>)
    ensures
        ({
            let run = batch_run::<S>(old(state).model(), market_id, *rules, domain_sep, messages@);
            &&& final(state).model() == run.0
            &&& r is Ok <==> run.1 is Ok
            &&& r matches Err(e) ==> has_cause(e, run.1->Err_0)
            &&& r is Ok ==> run.1 == Ok::<_, Cause>(
                Tally { totals: r->Ok_0.fee_totals@, trades: r->Ok_0.trades@ },
            )
        }),
        final(state).coherent() ==> old(state).coherent(),
        old(state).steady() ==> final(state).steady(),
        final(state).anchor() == old(state).anchor(),
        !rules_admit(*rules, messages@.len()) ==> r is Err && r->Err_0 is Invalid && final(state).contents() == old(state).contents(),
        r is Ok && final(state).coherent() ==> batch_spec(
            old(state).contents(),
            market_id,
            *rules,
            domain_sep,
            messages@,
        ) == Some(
            BatchState {
                store: final(state).contents(),
                totals: r->Ok_0.fee_totals@,
                trades: r->Ok_0.trades@,
            },
        ),
        r is Err && final(state).coherent() ==> batch_spec(
            old(state).contents(),
            market_id,
            *rules,
            domain_sep,
            messages@,
        ) is None,
{
    check_rules(rules, messages.len())?;
    let mut trades: Vec<TradeRecord> = Vec::new();
    let mut fee_totals: Vec<FeeTotal> = Vec::new();
    let ghost start = BatchState {
        store: state.contents(),
        totals: Seq::<FeeTotal>::empty(),
        trades: Seq::<TradeRecord>::empty(),
    };
    let mut i: usize = 0;
    proof {
        assert(messages@.skip(0) =~= messages@);
    }
    while i < messages.len()
        invariant
            i <= messages@.len(),
            rules_admit(*rules, messages@.len()),
            start == (BatchState {
                store: old(state).contents(),
                totals: Seq::<FeeTotal>::empty(),
                trades: Seq::<TradeRecord>::empty(),
            }),
            messages_run::<S>(
                old(state).model(),
                Tally { totals: Seq::empty(), trades: Seq::empty() },
                market_id,
                *rules,
                domain_sep,
                messages@,
            ) == messages_run::<S>(
                state.model(),
                Tally { totals: fee_totals@, trades: trades@ },
                market_id,
                *rules,
                domain_sep,
                messages@.skip(i as int),
            ),
            state.coherent() ==> old(state).coherent(),
            old(state).steady() ==> state.steady(),
            state.anchor() == old(state).anchor(),
            state.coherent() ==> run_messages(start, market_id, *rules, domain_sep, messages@)
                == run_messages(
                BatchState { store: state.contents(), totals: fee_totals@, trades: trades@ },
                market_id,
                *rules,
                domain_sep,
                messages@.skip(i as int),
            ),
        decreases messages@.len() - i,
    {
        proof {
            assert(messages@.skip(i as int)[0] == messages@[i as int]);
            assert(messages@.skip(i as int).skip(1) =~= messages@.skip(i + 1));
        }
        process_message(
            state,
            &market_id,
            rules,
            &domain_sep,
            &messages[i],
            &mut fee_totals,
            &mut trades,
        )?;
        i += 1;
    }
    Ok(BatchOutput { trades, fee_totals })
}

} // verus!
