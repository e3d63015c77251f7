use crate::book::fill_terms_spec;
use crate::constants::NONE_ORDER_ID;
use crate::constants::NONE_TICK;
use crate::engine::adjust_spec;
use crate::engine::batch_spec;
use crate::engine::best_of;
use crate::engine::cancel_spec;
use crate::engine::crosses;
use crate::engine::drop_tick_spec;
use crate::engine::empty_order_node;
use crate::engine::fill_maker_spec;
use crate::engine::match_orders_spec;
use crate::engine::match_step_spec;
use crate::engine::match_tick_spec;
use crate::engine::message_spec;
use crate::engine::new_order_of;
use crate::engine::place_resting_spec;
use crate::engine::place_spec;
use crate::engine::pop_head_spec;
use crate::engine::remove_from_book_spec;
use crate::engine::run_messages;
use crate::engine::set_links_spec;
use crate::engine::BatchState;
use crate::engine::Matching;
use crate::engine::NewOrder;
use crate::engine::Taker;
use crate::input::Message;
use crate::input::SignedMessage;
use crate::state::stored_market_best;
use crate::state::stored_nonce;
use crate::state::stored_order;
use crate::state::stored_order_node;
use crate::state::stored_tick_node;
use crate::types::FeeTotal;
use crate::types::MarketBest;
use crate::types::Order;
use crate::types::OrderNode;
use crate::types::OrderStatus;
use crate::types::TickNode;
use crate::types::TimeInForce;
use crate::types::TradeRecord;
use crate::verify::price_of;
use crate::book::holdings;
use crate::book::totals_sorted;
use crate::book::lemma_lock_release_conserve;
use crate::book::within_limit;
use crate::book::FillTerms;
use crate::bytes::be_bytes;
use crate::bytes::lemma_be_bytes_len;
use crate::bytes::lemma_be_value_of_bytes;
use crate::bytes::lemma_concat_injective;
use crate::bytes::lemma_pow256_values;
use crate::constants::KEY_SEPARATOR;
use crate::constants::NS_BAL;
use crate::constants::NS_FEEVAULT;
use crate::constants::NS_MARKETBEST;
use crate::constants::NS_NONCE;
use crate::constants::NS_ORDER;
use crate::constants::NS_ORDERNODE;
use crate::constants::NS_TICKNODE;
use crate::engine::collect_fee_spec;
use crate::engine::lock_amount;
use crate::engine::lock_asset;
use crate::engine::lock_taker_spec;
use crate::engine::release_spec;
use crate::engine::settle_fill_spec;
use crate::engine::Store;
use crate::hash::keccak_digest;
use crate::input::Rules;
use crate::state::balance_key;
use crate::state::fee_vault_key;
use crate::state::lookup;
use crate::state::market_best_key;
use crate::state::nonce_key;
use crate::state::order_key;
use crate::state::order_node_key;
use crate::state::stored_balance;
use crate::state::stored_fee_vault;
use crate::state::tick_node_key;
use crate::types::lemma_balance_decoded;
use crate::types::lemma_fee_vault_decoded;
use crate::types::Balance;
use crate::types::FeeVault;
use crate::types::Side;
use vstd::prelude::*;

verus! {

/// Whether the hash function maps no two byte strings to one digest. No
/// hash function does; the laws that assume it hold as long as the keys
/// in play do not collide.
pub open spec fn collision_free() -> bool {
    forall|a: Seq<u8>, b: Seq<u8>|
        #![trigger keccak_digest(a), keccak_digest(b)]
        keccak_digest(a) == keccak_digest(b) ==> a == b
}

/// The kinds of records that the state holds.
pub enum Kind {
    Balance,
    Nonce,
    Order,
    OrderNode,
    TickNode,
    MarketBest,
    FeeVault,
}

/// The namespace label of a kind of record.
pub open spec fn label_of(kind: Kind) -> Seq<u8> {
    match kind {
        Kind::Balance => NS_BAL@,
        Kind::Nonce => NS_NONCE@,
        Kind::Order => NS_ORDER@,
        Kind::OrderNode => NS_ORDERNODE@,
        Kind::TickNode => NS_TICKNODE@,
        Kind::MarketBest => NS_MARKETBEST@,
        Kind::FeeVault => NS_FEEVAULT@,
    }
}

/// The key of the record of `kind` that `fields` names: the hash of the
/// label, the separator and the fields.
pub open spec fn record_key(kind: Kind, fields: Seq<u8>) -> Seq<u8> {
    keccak_digest(label_of(kind) + seq![KEY_SEPARATOR] + fields)
}

/// Every key that the accessors derive is the key of a record of its kind.
pub proof fn lemma_keys_are_record_keys(a: Seq<u8>, b: Seq<u8>, side: u8, tick: i32)
    ensures
        balance_key(a, b) == record_key(Kind::Balance, a + b),
        nonce_key(a) == record_key(Kind::Nonce, a),
        order_key(a) == record_key(Kind::Order, a),
        order_node_key(a) == record_key(Kind::OrderNode, a),
        tick_node_key(a, side, tick) == record_key(
            Kind::TickNode,
            a + seq![side] + be_bytes(crate::bytes::i32_bits(tick), 4),
        ),
        market_best_key(a) == record_key(Kind::MarketBest, a),
        fee_vault_key(a) == record_key(Kind::FeeVault, a),
{
    assert(NS_BAL@ + seq![KEY_SEPARATOR] + a + b =~= NS_BAL@ + seq![KEY_SEPARATOR] + (a + b));
    assert(NS_TICKNODE@ + seq![KEY_SEPARATOR] + a + seq![side] + be_bytes(
        crate::bytes::i32_bits(tick),
        4,
    ) =~= NS_TICKNODE@ + seq![KEY_SEPARATOR] + (a + seq![side] + be_bytes(
        crate::bytes::i32_bits(tick),
        4,
    )));
}

/// Absent collisions, records of different kinds or with different fields
/// have different keys.
pub proof fn lemma_record_keys_apart(k1: Kind, f1: Seq<u8>, k2: Kind, f2: Seq<u8>)
    requires
        collision_free(),
        record_key(k1, f1) == record_key(k2, f2),
    ensures
        k1 == k2,
        f1 == f2,
{
    let left = label_of(k1) + seq![KEY_SEPARATOR] + f1;
    let right = label_of(k2) + seq![KEY_SEPARATOR] + f2;
    assert(left == right);
    assert(label_of(k1).len() == 32 && label_of(k2).len() == 32);
    assert(left[3] == label_of(k1)[3] && right[3] == label_of(k2)[3]);
    assert(left[8] == label_of(k1)[8] && right[8] == label_of(k2)[8]);
    assert(k1 == k2);
    lemma_concat_injective(label_of(k1) + seq![KEY_SEPARATOR], f1, label_of(k2) + seq![KEY_SEPARATOR], f2);
}

/// Absent collisions, two balances have one key only if they are the
/// balance of one account in one asset.
pub proof fn lemma_balance_keys_apart(a1: [u8; 20], s1: [u8; 32], a2: [u8; 20], s2: [u8; 32])
    requires
        collision_free(),
        balance_key(a1@, s1@) == balance_key(a2@, s2@),
    ensures
        a1@ == a2@,
        s1@ == s2@,
{
    lemma_keys_are_record_keys(a1@, s1@, 0, 0);
    lemma_keys_are_record_keys(a2@, s2@, 0, 0);
    lemma_record_keys_apart(Kind::Balance, a1@ + s1@, Kind::Balance, a2@ + s2@);
    lemma_concat_injective(a1@, s1@, a2@, s2@);
}

/// What an account holds of an asset in all, as the contents have it; 0
/// when the stored balance is malformed.
pub open spec fn held(store: Store, account: [u8; 20], asset: [u8; 32]) -> nat {
    match stored_balance(store, account@, asset@) {
        Some(b) => holdings(b),
        None => 0,
    }
}

/// What the fee vault of an asset holds; 0 when the vault is malformed.
pub open spec fn vault_total(store: Store, asset: [u8; 32]) -> nat {
    match stored_fee_vault(store, asset@) {
        Some(v) => v.total@,
        None => 0,
    }
}

/// A balance that was stored is the balance that is read.
pub proof fn lemma_balance_read_back(store: Store, account: [u8; 20], asset: [u8; 32], b: Balance)
    ensures
        stored_balance(store.insert(balance_key(account@, asset@), b.encoded()), account@, asset@)
            == Some(b),
{
    lemma_balance_decoded(b, b.encoded());
}

/// Locking funds for a new order keeps what the trader holds of each
/// asset, and, absent collisions, keeps every other balance as it is.
pub proof fn lemma_lock_conserves(
    store: Store,
    trader: [u8; 20],
    side: Side,
    price: nat,
    qty: nat,
    rules: Rules,
    account: [u8; 20],
    asset: [u8; 32],
)
    requires
        collision_free(),
        lock_taker_spec(store, trader, side, price, qty, rules) is Some,
    ensures
        held(lock_taker_spec(store, trader, side, price, qty, rules).unwrap(), account, asset)
            == held(store, account, asset),
{
    let after = lock_taker_spec(store, trader, side, price, qty, rules).unwrap();
    let locked = lock_asset(side, rules);
    let amount = lock_amount(side, price, qty, rules).unwrap();
    let before = stored_balance(store, trader@, locked@).unwrap();
    lemma_lock_release_conserve(before, amount, rules.max_balance@);
    let b = crate::book::lock_funds_spec(before, amount, rules.max_balance@).unwrap();
    lemma_balance_read_back(store, trader, locked, b);
    if balance_key(account@, asset@) == balance_key(trader@, locked@) {
        lemma_balance_keys_apart(account, asset, trader, locked);
    }
}

/// Releasing locked funds keeps what the trader holds of each asset,
/// leaves the released balance within the limit, and, absent collisions,
/// keeps every other balance as it is.
pub proof fn lemma_release_conserves(
    store: Store,
    trader: [u8; 20],
    side: Side,
    remaining: nat,
    price: nat,
    rules: Rules,
    account: [u8; 20],
    asset: [u8; 32],
)
    requires
        collision_free(),
        release_spec(store, trader, side, remaining, price, rules) is Some,
    ensures
        held(release_spec(store, trader, side, remaining, price, rules).unwrap(), account, asset)
            == held(store, account, asset),
        within_limit(
            stored_balance(
                release_spec(store, trader, side, remaining, price, rules).unwrap(),
                trader@,
                lock_asset(side, rules)@,
            ).unwrap(),
            rules.max_balance@,
        ),
{
    let locked = lock_asset(side, rules);
    let amount = lock_amount(side, price, remaining, rules).unwrap();
    let before = stored_balance(store, trader@, locked@).unwrap();
    lemma_lock_release_conserve(before, amount, rules.max_balance@);
    let b = crate::book::release_funds_spec(before, amount, rules.max_balance@).unwrap();
    lemma_balance_read_back(store, trader, locked, b);
    if balance_key(account@, asset@) == balance_key(trader@, locked@) {
        lemma_balance_keys_apart(account, asset, trader, locked);
    }
}

/// One update of a fill changes what the account holds of the asset by
/// what comes less what leaves, and, absent collisions, leaves every
/// other balance as it is.
pub proof fn lemma_adjust_held(
    store: Store,
    account: [u8; 20],
    asset: [u8; 32],
    taken: nat,
    given: nat,
    max: nat,
    who: [u8; 20],
    what: [u8; 32],
)
    requires
        collision_free(),
        adjust_spec(store, account, asset, taken, given, max) is Some,
    ensures
        ({
            let after = adjust_spec(store, account, asset, taken, given, max).unwrap();
            &&& held(after, account, asset) + taken == held(store, account, asset) + given
            &&& who@ != account@ || what@ != asset@ ==> stored_balance(after, who@, what@)
                == stored_balance(store, who@, what@)
        }),
{
    let before = stored_balance(store, account@, asset@).unwrap();
    crate::book::lemma_adjusted(before, taken, given, max);
    let b = crate::book::adjusted(before, taken, given, max).unwrap();
    lemma_balance_read_back(store, account, asset, b);
    if balance_key(who@, what@) == balance_key(account@, asset@) {
        lemma_balance_keys_apart(who, what, account, asset);
    }
}

/// Collecting a fee adds it to the vault of its asset and, absent
/// collisions, leaves every balance and every other vault as it is: the
/// vault never shrinks.
pub proof fn lemma_fee_collected(
    store: Store,
    fee_asset: [u8; 32],
    fee: nat,
    account: [u8; 20],
    asset: [u8; 32],
)
    requires
        collision_free(),
        collect_fee_spec(store, fee_asset, fee) is Some,
    ensures
        ({
            let after = collect_fee_spec(store, fee_asset, fee).unwrap();
            &&& vault_total(after, fee_asset) == vault_total(store, fee_asset) + fee
            &&& asset@ != fee_asset@ ==> stored_fee_vault(after, asset@) == stored_fee_vault(
                store,
                asset@,
            )
            &&& stored_balance(after, account@, asset@) == stored_balance(store, account@, asset@)
        }),
{
    let vault = stored_fee_vault(store, fee_asset@).unwrap();
    let grown = FeeVault { total: crate::book::u256(vault.total@ + fee) };
    crate::book::lemma_u256(vault.total, vault.total@ + fee);
    lemma_fee_vault_decoded(grown, grown.encoded());
    lemma_keys_are_record_keys(fee_asset@, fee_asset@, 0, 0);
    lemma_keys_are_record_keys(asset@, asset@, 0, 0);
    lemma_keys_are_record_keys(account@, asset@, 0, 0);
    if fee_vault_key(asset@) == fee_vault_key(fee_asset@) {
        lemma_record_keys_apart(Kind::FeeVault, asset@, Kind::FeeVault, fee_asset@);
    }
    if balance_key(account@, asset@) == fee_vault_key(fee_asset@) {
        lemma_record_keys_apart(Kind::Balance, account@ + asset@, Kind::FeeVault, fee_asset@);
    }
}

/// Absent collisions: every derived key is the key of a record of its
/// kind, and records of different kinds or with different fields have
/// different keys.
pub proof fn lemma_key_facts()
    requires
        collision_free(),
    ensures
        forall|a: Seq<u8>, b: Seq<u8>| #[trigger]
            balance_key(a, b) == record_key(Kind::Balance, a + b),
        forall|a: Seq<u8>| #[trigger] nonce_key(a) == record_key(Kind::Nonce, a),
        forall|a: Seq<u8>| #[trigger] order_key(a) == record_key(Kind::Order, a),
        forall|a: Seq<u8>| #[trigger] order_node_key(a) == record_key(Kind::OrderNode, a),
        forall|a: Seq<u8>, side: u8, tick: i32| #[trigger]
            tick_node_key(a, side, tick) == record_key(
                Kind::TickNode,
                a + seq![side] + be_bytes(crate::bytes::i32_bits(tick), 4),
            ),
        forall|a: Seq<u8>| #[trigger] market_best_key(a) == record_key(Kind::MarketBest, a),
        forall|a: Seq<u8>| #[trigger] fee_vault_key(a) == record_key(Kind::FeeVault, a),
        forall|k1: Kind, f1: Seq<u8>, k2: Kind, f2: Seq<u8>|
            #![trigger record_key(k1, f1), record_key(k2, f2)]
            record_key(k1, f1) == record_key(k2, f2) ==> k1 == k2 && f1 == f2,
{
    assert forall|a: Seq<u8>, b: Seq<u8>| #[trigger]
        balance_key(a, b) == record_key(Kind::Balance, a + b) by {
        lemma_keys_are_record_keys(a, b, 0, 0);
    }
    assert forall|a: Seq<u8>, side: u8, tick: i32| #[trigger]
        tick_node_key(a, side, tick) == record_key(
            Kind::TickNode,
            a + seq![side] + be_bytes(crate::bytes::i32_bits(tick), 4),
        ) by {
        lemma_keys_are_record_keys(a, a, side, tick);
    }
    assert forall|k1: Kind, f1: Seq<u8>, k2: Kind, f2: Seq<u8>|
        #![trigger record_key(k1, f1), record_key(k2, f2)]
        record_key(k1, f1) == record_key(k2, f2) implies k1 == k2 && f1 == f2 by {
        lemma_record_keys_apart(k1, f1, k2, f2);
    }
}

/// Whether the records of `kind` are in `after` as they are in `before`.
pub open spec fn keeps(before: Store, after: Store, kind: Kind) -> bool {
    forall|fields: Seq<u8>| #[trigger]
        lookup(after, record_key(kind, fields)) == lookup(before, record_key(kind, fields))
}

/// Locking, releasing and settling write balances only.
pub proof fn lemma_balance_writes_keep(
    store: Store,
    trader: [u8; 20],
    maker: [u8; 20],
    side: Side,
    amount: nat,
    price: nat,
    rules: Rules,
    terms: FillTerms,
    kind: Kind,
)
    requires
        collision_free(),
        kind != Kind::Balance,
    ensures
        lock_taker_spec(store, trader, side, price, amount, rules) matches Some(after) ==> keeps(
            store,
            after,
            kind,
        ),
        release_spec(store, trader, side, amount, price, rules) matches Some(after) ==> keeps(
            store,
            after,
            kind,
        ),
        settle_fill_spec(store, side, trader, maker, rules, terms) matches Some(after) ==> keeps(
            store,
            after,
            kind,
        ),
{
    lemma_key_facts();
    lemma_settle_keeps(store, side, trader, maker, rules, terms, kind);
}

/// One update of a fill writes a balance only.
pub proof fn lemma_adjust_keeps(
    store: Store,
    account: [u8; 20],
    asset: [u8; 32],
    taken: nat,
    given: nat,
    max: nat,
    kind: Kind,
)
    requires
        collision_free(),
        kind != Kind::Balance,
    ensures
        adjust_spec(store, account, asset, taken, given, max) matches Some(after) ==> keeps(
            store,
            after,
            kind,
        ),
{
    lemma_key_facts();
}

/// What is kept by one step and by the next is kept by both.
pub proof fn lemma_keeps_on(first: Store, second: Store, third: Store, kind: Kind)
    requires
        keeps(first, second, kind),
        keeps(second, third, kind),
    ensures
        keeps(first, third, kind),
{
    assert forall|fields: Seq<u8>| #[trigger]
        lookup(third, record_key(kind, fields)) == lookup(first, record_key(kind, fields)) by {
        assert(lookup(second, record_key(kind, fields)) == lookup(first, record_key(kind, fields)));
    }
}

/// Settling a fill writes balances only.
proof fn lemma_settle_keeps(
    store: Store,
    side: Side,
    trader: [u8; 20],
    maker: [u8; 20],
    rules: Rules,
    terms: FillTerms,
    kind: Kind,
)
    requires
        collision_free(),
        kind != Kind::Balance,
    ensures
        settle_fill_spec(store, side, trader, maker, rules, terms) matches Some(after) ==> keeps(
            store,
            after,
            kind,
        ),
{
    reveal(settle_fill_spec);
    if settle_fill_spec(store, side, trader, maker, rules, terms) is Some {
        let quote = rules.quote_asset_id;
        let base = rules.base_asset_id;
        let max = rules.max_balance@;
        let fill = terms.fill_qty@;
        let amount = terms.quote_amt@;
        let fee = terms.fee@;
        let after = settle_fill_spec(store, side, trader, maker, rules, terms).unwrap();
        match side {
            Side::Buy => {
                let s1 = adjust_spec(store, trader, quote, amount + fee, 0, max).unwrap();
                let s2 = adjust_spec(s1, trader, base, 0, fill, max).unwrap();
                let s3 = adjust_spec(s2, maker, base, fill, 0, max).unwrap();
                lemma_adjust_keeps(store, trader, quote, amount + fee, 0, max, kind);
                lemma_adjust_keeps(s1, trader, base, 0, fill, max, kind);
                lemma_adjust_keeps(s2, maker, base, fill, 0, max, kind);
                lemma_adjust_keeps(s3, maker, quote, 0, amount, max, kind);
                lemma_keeps_on(store, s1, s2, kind);
                lemma_keeps_on(store, s2, s3, kind);
                lemma_keeps_on(store, s3, after, kind);
            },
            Side::Sell => {
                let receive = (amount - fee) as nat;
                let s1 = adjust_spec(store, trader, base, fill, 0, max).unwrap();
                let s2 = adjust_spec(s1, trader, quote, 0, receive, max).unwrap();
                let s3 = adjust_spec(s2, maker, quote, amount, 0, max).unwrap();
                lemma_adjust_keeps(store, trader, base, fill, 0, max, kind);
                lemma_adjust_keeps(s1, trader, quote, 0, receive, max, kind);
                lemma_adjust_keeps(s2, maker, quote, amount, 0, max, kind);
                lemma_adjust_keeps(s3, maker, base, 0, fill, max, kind);
                lemma_keeps_on(store, s1, s2, kind);
                lemma_keeps_on(store, s2, s3, kind);
                lemma_keeps_on(store, s3, after, kind);
            },
        }
    }
}

/// Collecting a fee writes a fee vault only.
pub proof fn lemma_fee_write_keeps(store: Store, asset: [u8; 32], fee: nat, kind: Kind)
    requires
        collision_free(),
        kind != Kind::FeeVault,
    ensures
        collect_fee_spec(store, asset, fee) matches Some(after) ==> keeps(store, after, kind),
{
    lemma_key_facts();
}

/// Whether the upkeep of the lists of levels and orders never writes a
/// record of `kind`: balances, nonces and fee vaults.
pub open spec fn outside_lists(kind: Kind) -> bool {
    kind == Kind::Balance || kind == Kind::Nonce || kind == Kind::FeeVault
}

/// Joining and pointing levels writes tick nodes only.
pub proof fn lemma_links_keep(
    store: Store,
    market: [u8; 32],
    side: Side,
    prev: i32,
    next: i32,
    after_prev: i32,
    before_next: i32,
    kind: Kind,
)
    requires
        collision_free(),
        kind != Kind::TickNode,
    ensures
        set_links_spec(store, market, side, prev, next, after_prev, before_next) matches Some(
            after,
        ) ==> keeps(store, after, kind),
{
    lemma_key_facts();
}

/// Taking a level out of its list writes tick nodes and the best ticks only.
pub proof fn lemma_drop_tick_keeps(
    store: Store,
    market: [u8; 32],
    side: Side,
    tick: i32,
    node: TickNode,
    best: MarketBest,
    kind: Kind,
)
    requires
        collision_free(),
        kind != Kind::TickNode,
        kind != Kind::MarketBest,
    ensures
        drop_tick_spec(store, market, side, tick, node, best) matches Some(after) ==> keeps(
            store,
            after.0,
            kind,
        ),
{
    lemma_key_facts();
    lemma_links_keep(
        store,
        market,
        side,
        node.prev_tick,
        node.next_tick,
        node.next_tick,
        node.prev_tick,
        kind,
    );
}

/// Taking the head out of a queue writes queue links only.
pub proof fn lemma_pop_head_keeps(store: Store, node: TickNode, maker_id: [u8; 32], kind: Kind)
    requires
        collision_free(),
        kind != Kind::OrderNode,
    ensures
        pop_head_spec(store, node, maker_id) matches Some(after) ==> keeps(store, after.0, kind),
{
    lemma_key_facts();
}

/// A fill writes balances, a fee vault, an order and queue links only.
pub proof fn lemma_fill_maker_keeps(
    store: Store,
    taker: Taker,
    rules: Rules,
    tick_price: nat,
    node: TickNode,
    remaining: nat,
    totals: Seq<FeeTotal>,
    kind: Kind,
)
    requires
        collision_free(),
        kind == Kind::Nonce || kind == Kind::TickNode || kind == Kind::MarketBest,
    ensures
        fill_maker_spec(store, taker, rules, tick_price, node, remaining, totals) matches Some(
            f,
        ) ==> keeps(store, f.store, kind),
{
    reveal(fill_maker_spec);
    lemma_key_facts();
    let maker_id = node.head_order_id;
    if fill_maker_spec(store, taker, rules, tick_price, node, remaining, totals) is Some {
        let maker = stored_order(store, maker_id@).unwrap().unwrap();
        let terms = fill_terms_spec(remaining, maker.qty_remaining@, tick_price, rules).unwrap();
        let settled = settle_fill_spec(store, taker.side, taker.trader, maker.owner, rules, terms);
        lemma_balance_writes_keep(
            store,
            taker.trader,
            maker.owner,
            taker.side,
            0,
            0,
            rules,
            terms,
            kind,
        );
        let collected = collect_fee_spec(settled.unwrap(), rules.quote_asset_id, terms.fee@);
        lemma_fee_write_keeps(settled.unwrap(), rules.quote_asset_id, terms.fee@, kind);
        let left = (maker.qty_remaining@ - terms.fill_qty@) as nat;
        let maker1 = Order {
            owner: maker.owner,
            side: maker.side,
            tick: maker.tick,
            qty_remaining: crate::book::u256(left),
            tif: maker.tif,
            status: if left == 0 {
                OrderStatus::Filled
            } else {
                OrderStatus::Open
            },
        };
        let written = collected.unwrap().insert(order_key(maker_id@), maker1.encoded());
        assert(keeps(collected.unwrap(), written, kind));
        lemma_pop_head_keeps(written, node, maker_id, kind);
    }
}

/// The matching at a level writes what its fills write.
pub proof fn lemma_match_tick_keeps(
    m: Matching,
    node: TickNode,
    taker: Taker,
    rules: Rules,
    tick_price: nat,
    kind: Kind,
)
    requires
        collision_free(),
        kind == Kind::Nonce || kind == Kind::TickNode || kind == Kind::MarketBest,
    ensures
        match_tick_spec(m, node, taker, rules, tick_price) matches Some(after) ==> keeps(
            m.store,
            after.0.store,
            kind,
        ),
    decreases rules.max_matches_per_order - m.matches,
{
    if node.head_order_id@ == NONE_ORDER_ID@ || m.remaining == 0 {
    } else if m.matches >= rules.max_matches_per_order {
    } else {
        lemma_fill_maker_keeps(m.store, taker, rules, tick_price, node, m.remaining, m.totals, kind);
        match fill_maker_spec(m.store, taker, rules, tick_price, node, m.remaining, m.totals) {
            Some(f) => {
                lemma_match_tick_keeps(
                    Matching {
                        store: f.store,
                        remaining: f.remaining,
                        matches: m.matches + 1,
                        best: m.best,
                        totals: f.totals,
                        trades: m.trades.push(f.trade),
                    },
                    f.node,
                    taker,
                    rules,
                    tick_price,
                    kind,
                );
            },
            None => {},
        }
    }
}

/// The walk over the levels never writes a nonce.
pub proof fn lemma_match_orders_keeps(m: Matching, taker: Taker, rules: Rules, fuel: nat)
    requires
        collision_free(),
    ensures
        match_orders_spec(m, taker, rules, fuel) matches Some(after) ==> keeps(
            m.store,
            after.store,
            Kind::Nonce,
        ),
    decreases fuel,
{
    lemma_match_step_keeps(m, taker, rules);
    match match_step_spec(m, taker, rules) {
        Some((m1, more)) => {
            if more && fuel > 0 {
                lemma_match_orders_keeps(m1, taker, rules, (fuel - 1) as nat);
            }
        },
        None => {},
    }
}

/// A step of the walk never writes a nonce.
pub proof fn lemma_match_step_keeps(m: Matching, taker: Taker, rules: Rules)
    requires
        collision_free(),
    ensures
        match_step_spec(m, taker, rules) matches Some(after) ==> keeps(
            m.store,
            after.0.store,
            Kind::Nonce,
        ),
{
    reveal(match_step_spec);
    lemma_key_facts();
    let book = taker.side.other();
    let current = best_of(m.best, book);
    if match_step_spec(m, taker, rules) is Some && current != NONE_TICK {
        let tick_price = price_of(current, rules.tick_size@).unwrap();
        if crosses(taker.side, tick_price, taker.limit_price@) && m.remaining != 0 {
            let node = stored_tick_node(m.store, taker.market_id@, book.code(), current).unwrap();
            lemma_match_tick_keeps(m, node, taker, rules, tick_price, Kind::Nonce);
            let matched = match_tick_spec(m, node, taker, rules, tick_price).unwrap();
            let m1 = matched.0;
            let node1 = matched.1;
            assert(keeps(m.store, m1.store, Kind::Nonce));
            lemma_drop_tick_keeps(
                m1.store,
                taker.market_id,
                book,
                current,
                node1,
                m1.best,
                Kind::Nonce,
            );
            let stored_back = m1.store.insert(
                tick_node_key(taker.market_id@, book.code(), current),
                node1.encoded(),
            );
            assert(keeps(m1.store, stored_back, Kind::Nonce));
            let after = match_step_spec(m, taker, rules).unwrap().0;
            assert(keeps(m1.store, after.store, Kind::Nonce));
        }
    }
}

/// Putting an order to rest writes tick nodes, the best ticks, queue
/// links and the order only.
pub proof fn lemma_place_resting_keeps(
    store: Store,
    market: [u8; 32],
    order_id: [u8; 32],
    trader: [u8; 20],
    side: Side,
    tick: i32,
    qty: nat,
    tif: TimeInForce,
    prev_hint: i32,
    next_hint: i32,
    best: MarketBest,
    kind: Kind,
)
    requires
        collision_free(),
        outside_lists(kind),
    ensures
        place_resting_spec(
            store,
            market,
            order_id,
            trader,
            side,
            tick,
            qty,
            tif,
            prev_hint,
            next_hint,
            best,
        ) matches Some(after) ==> keeps(store, after.0, kind),
{
    reveal(place_resting_spec);
    lemma_key_facts();
    lemma_links_keep(store, market, side, prev_hint, next_hint, tick, tick, kind);
}

/// Taking an order out of its queue writes queue links, tick nodes and
/// the best ticks only.
pub proof fn lemma_remove_from_book_keeps(
    store: Store,
    market: [u8; 32],
    side: Side,
    tick: i32,
    order_id: [u8; 32],
    kind: Kind,
)
    requires
        collision_free(),
        outside_lists(kind),
    ensures
        remove_from_book_spec(store, market, side, tick, order_id) matches Some(after) ==> keeps(
            store,
            after,
            kind,
        ),
{
    reveal(remove_from_book_spec);
    lemma_key_facts();
    if remove_from_book_spec(store, market, side, tick, order_id) is Some {
        let node = stored_tick_node(store, market@, side.code(), tick).unwrap();
        let links = stored_order_node(store, order_id@).unwrap();
        let prev_id = links.prev_order_id;
        let next_id = links.next_order_id;
        let s1 = if prev_id@ != NONE_ORDER_ID@ {
            store.insert(
                order_node_key(prev_id@),
                OrderNode {
                    prev_order_id: stored_order_node(store, prev_id@).unwrap().prev_order_id,
                    next_order_id: next_id,
                }.encoded(),
            )
        } else {
            store
        };
        assert(keeps(store, s1, kind));
        let s2 = if next_id@ != NONE_ORDER_ID@ {
            s1.insert(
                order_node_key(next_id@),
                OrderNode {
                    prev_order_id: prev_id,
                    next_order_id: stored_order_node(s1, next_id@).unwrap().next_order_id,
                }.encoded(),
            )
        } else {
            s1
        };
        assert(keeps(s1, s2, kind));
        let s3 = s2.insert(order_node_key(order_id@), empty_order_node().encoded());
        assert(keeps(s2, s3, kind));
        let n1_head = if prev_id@ != NONE_ORDER_ID@ {
            node.head_order_id
        } else {
            next_id
        };
        if n1_head@ == NONE_ORDER_ID@ {
            lemma_links_keep(
                s3,
                market,
                side,
                node.prev_tick,
                node.next_tick,
                node.next_tick,
                node.prev_tick,
                kind,
            );
        }
    }
}

/// Placing an order never writes a nonce.
pub proof fn lemma_place_keeps(
    store: Store,
    market: [u8; 32],
    rules: Rules,
    order: NewOrder,
    totals: Seq<FeeTotal>,
    trades: Seq<TradeRecord>,
)
    requires
        collision_free(),
    ensures
        place_spec(store, market, rules, order, totals, trades) matches Some(after) ==> keeps(
            store,
            after.store,
            Kind::Nonce,
        ),
{
    reveal(place_spec);
    lemma_key_facts();
    if place_spec(store, market, rules, order, totals, trades) is Some {
        let qty = order.qty_base@;
        let price = price_of(order.tick_index, rules.tick_size@).unwrap();
        let locked = lock_taker_spec(store, order.trader, order.side, price, qty, rules).unwrap();
        lemma_balance_writes_keep(
            store,
            order.trader,
            order.trader,
            order.side,
            qty,
            price,
            rules,
            arbitrary(),
            Kind::Nonce,
        );
        let best = stored_market_best(locked, market@).unwrap();
        let start = Matching { store: locked, remaining: qty, matches: 0, best, totals, trades };
        let taker = Taker {
            market_id: market,
            trader: order.trader,
            order_id: order.order_id,
            side: order.side,
            limit_price: crate::book::u256(price),
        };
        lemma_match_orders_keeps(start, taker, rules, u64::MAX as nat);
        let m = match_orders_spec(start, taker, rules, u64::MAX as nat).unwrap();
        lemma_balance_writes_keep(
            m.store,
            order.trader,
            order.trader,
            order.side,
            m.remaining,
            price,
            rules,
            arbitrary(),
            Kind::Nonce,
        );
        lemma_place_resting_keeps(
            m.store,
            market,
            order.order_id,
            order.trader,
            order.side,
            order.tick_index,
            m.remaining,
            order.tif,
            order.prev_tick_hint,
            order.next_tick_hint,
            m.best,
            Kind::Nonce,
        );
        assert(keeps(store, locked, Kind::Nonce));
        assert(keeps(locked, m.store, Kind::Nonce));
        let after = place_spec(store, market, rules, order, totals, trades).unwrap();
        let released = if order.tif == TimeInForce::Ioc && m.remaining != 0 {
            release_spec(m.store, order.trader, order.side, m.remaining, price, rules).unwrap()
        } else {
            m.store
        };
        assert(keeps(m.store, released, Kind::Nonce));
        let filled = crate::engine::closed_order(order, OrderStatus::Filled).encoded();
        let canceled = crate::engine::closed_order(order, OrderStatus::Canceled).encoded();
        assert(keeps(released, released.insert(order_key(order.order_id@), filled), Kind::Nonce));
        assert(keeps(released, released.insert(order_key(order.order_id@), canceled), Kind::Nonce));
        assert(keeps(m.store, after.store, Kind::Nonce));
    }
}

/// Cancelling an order writes no nonce and no fee vault, and keeps what
/// every account holds of every asset.
pub proof fn lemma_cancel_conserves(
    store: Store,
    market: [u8; 32],
    rules: Rules,
    trader: [u8; 20],
    order_id: [u8; 32],
    account: [u8; 20],
    asset: [u8; 32],
)
    requires
        collision_free(),
        cancel_spec(store, market, rules, trader, order_id) is Some,
    ensures
        ({
            let after = cancel_spec(store, market, rules, trader, order_id).unwrap();
            &&& keeps(store, after, Kind::Nonce)
            &&& keeps(store, after, Kind::FeeVault)
            &&& held(after, account, asset) == held(store, account, asset)
            &&& vault_total(after, asset) == vault_total(store, asset)
        }),
{
    reveal(cancel_spec);
    lemma_key_facts();
    let order = stored_order(store, order_id@).unwrap().unwrap();
    let price = price_of(order.tick, rules.tick_size@).unwrap();
    let released = release_spec(store, trader, order.side, order.qty_remaining@, price, rules).unwrap();
    lemma_release_conserves(
        store,
        trader,
        order.side,
        order.qty_remaining@,
        price,
        rules,
        account,
        asset,
    );
    lemma_balance_writes_keep(
        store,
        trader,
        trader,
        order.side,
        order.qty_remaining@,
        price,
        rules,
        arbitrary(),
        Kind::Nonce,
    );
    lemma_balance_writes_keep(
        store,
        trader,
        trader,
        order.side,
        order.qty_remaining@,
        price,
        rules,
        arbitrary(),
        Kind::FeeVault,
    );
    let closed = released.insert(
        order_key(order_id@),
        Order {
            owner: order.owner,
            side: order.side,
            tick: order.tick,
            qty_remaining: crate::book::u256(0),
            tif: order.tif,
            status: OrderStatus::Canceled,
        }.encoded(),
    );
    assert(keeps(released, closed, Kind::Nonce));
    assert(keeps(released, closed, Kind::FeeVault));
    assert(keeps(released, closed, Kind::Balance));
    lemma_remove_from_book_keeps(closed, market, order.side, order.tick, order_id, Kind::Nonce);
    lemma_remove_from_book_keeps(closed, market, order.side, order.tick, order_id, Kind::FeeVault);
    lemma_remove_from_book_keeps(closed, market, order.side, order.tick, order_id, Kind::Balance);
    let after = cancel_spec(store, market, rules, trader, order_id).unwrap();
    assert(lookup(after, record_key(Kind::Balance, account@ + asset@)) == lookup(
        released,
        record_key(Kind::Balance, account@ + asset@),
    ));
    assert(lookup(after, record_key(Kind::FeeVault, asset@)) == lookup(
        store,
        record_key(Kind::FeeVault, asset@),
    ));
}

/// How many of the messages `sender` sent.
pub open spec fn sent_by(messages: Seq<SignedMessage>, sender: Seq<u8>) -> nat
    decreases messages.len(),
{
    if messages.len() == 0 {
        0
    } else {
        sent_by(messages.drop_last(), sender) + (if messages.last().message.sender()@ == sender {
            1nat
        } else {
            0nat
        })
    }
}

/// A message that is carried out has the nonce one above the stored nonce
/// of its sender. Absent collisions, the stored nonce of the sender is
/// afterwards the nonce of the message, and the stored nonce of every
/// other account is as it was.
pub proof fn lemma_nonce_advances(
    b: BatchState,
    market: [u8; 32],
    rules: Rules,
    domain_sep: [u8; 32],
    signed: SignedMessage,
    account: Seq<u8>,
)
    requires
        collision_free(),
        message_spec(b, market, rules, domain_sep, signed) is Some,
    ensures
        ({
            let after = message_spec(b, market, rules, domain_sep, signed).unwrap();
            let sender = signed.message.sender()@;
            let nonce = signed.message.sequence();
            &&& nonce >= 1
            &&& stored_nonce(b.store, sender) == Some((nonce - 1) as u64)
            &&& stored_nonce(after.store, sender) == Some(nonce)
            &&& account != sender ==> stored_nonce(after.store, account) == stored_nonce(
                b.store,
                account,
            )
        }),
{
    reveal(message_spec);
    lemma_key_facts();
    lemma_pow256_values();
    let message = signed.message;
    let sender = message.sender()@;
    let nonce = message.sequence();
    lemma_be_bytes_len(nonce as nat, 8);
    lemma_be_value_of_bytes(nonce as nat, 8);
    let counted = b.store.insert(nonce_key(sender), be_bytes(nonce as nat, 8));
    let after = message_spec(b, market, rules, domain_sep, signed).unwrap();
    match message {
        Message::Place { .. } => {
            lemma_place_keeps(counted, market, rules, new_order_of(message), b.totals, b.trades);
        },
        Message::Cancel { trader, order_id, .. } => {
            lemma_cancel_conserves(counted, market, rules, trader, order_id, trader, market);
        },
    }
    assert(keeps(counted, after.store, Kind::Nonce));
    assert(lookup(after.store, record_key(Kind::Nonce, sender)) == lookup(
        counted,
        record_key(Kind::Nonce, sender),
    ));
    assert(lookup(after.store, record_key(Kind::Nonce, account)) == lookup(
        counted,
        record_key(Kind::Nonce, account),
    ));
}

/// Over the messages of a batch, the nonces of every account count up by
/// one. Absent collisions, when a batch is carried out from contents in
/// which an account has the nonce `start`: each message of the account
/// has the nonce `start` plus the number of its messages up to and
/// including that one, and the account's stored nonce afterwards is
/// `start` plus the number of its messages. An account that starts
/// without a stored nonce starts at 0, so its messages carry 1, 2, 3, ...
pub proof fn lemma_nonces_count_up(
    b: BatchState,
    market: [u8; 32],
    rules: Rules,
    domain_sep: [u8; 32],
    messages: Seq<SignedMessage>,
    account: Seq<u8>,
    start: u64,
)
    requires
        collision_free(),
        run_messages(b, market, rules, domain_sep, messages) is Some,
        stored_nonce(b.store, account) == Some(start),
    ensures
        stored_nonce(
            run_messages(b, market, rules, domain_sep, messages).unwrap().store,
            account,
        ) == Some((start + sent_by(messages, account)) as u64),
        start + sent_by(messages, account) <= u64::MAX,
        forall|i: int|
            0 <= i < messages.len() && (#[trigger] messages[i]).message.sender()@ == account
                ==> messages[i].message.sequence() == start + sent_by(
                messages.take(i + 1),
                account,
            ),
    decreases messages.len(),
{
    if messages.len() == 0 {
    } else {
        let first = messages[0];
        let rest = messages.skip(1);
        lemma_nonce_advances(b, market, rules, domain_sep, first, account);
        let b1 = message_spec(b, market, rules, domain_sep, first).unwrap();
        let mine: nat = if first.message.sender()@ == account {
            1
        } else {
            0
        };
        let next = (start + mine) as u64;
        lemma_nonces_count_up(b1, market, rules, domain_sep, rest, account, next);
        lemma_sent_by_front(messages, account);
        assert forall|i: int|
            0 <= i < messages.len() && (#[trigger] messages[i]).message.sender()@
                == account implies messages[i].message.sequence() == start + sent_by(
            messages.take(i + 1),
            account,
        ) by {
            lemma_sent_by_front(messages.take(i + 1), account);
            assert(messages.take(i + 1)[0] == first);
            assert(messages.take(i + 1).skip(1) =~= rest.take(i));
            if i > 0 {
                assert(rest[i - 1] == messages[i]);
            } else {
                assert(rest.take(0) =~= Seq::<SignedMessage>::empty());
            }
        }
    }
}

/// The count of an account's messages, taken from the front.
pub proof fn lemma_sent_by_front(messages: Seq<SignedMessage>, sender: Seq<u8>)
    requires
        messages.len() > 0,
    ensures
        sent_by(messages, sender) == sent_by(messages.skip(1), sender) + (if messages[0].message.sender()@
            == sender {
            1nat
        } else {
            0nat
        }),
    decreases messages.len(),
{
    if messages.len() == 1 {
        assert(messages.drop_last() =~= Seq::<SignedMessage>::empty());
        assert(messages.skip(1) =~= Seq::<SignedMessage>::empty());
        assert(messages.last() == messages[0]);
    } else {
        lemma_sent_by_front(messages.drop_last(), sender);
        assert(messages.drop_last().skip(1) =~= messages.skip(1).drop_last());
        assert(messages.skip(1).last() == messages.last());
        assert(messages.drop_last()[0] == messages[0]);
    }
}

/// Whether `account` is one of `accounts`.
pub open spec fn listed(accounts: Seq<[u8; 20]>, account: Seq<u8>) -> bool {
    exists|i: int| 0 <= i < accounts.len() && (#[trigger] accounts[i])@ == account
}

/// Whether no account occurs twice in `accounts`.
pub open spec fn distinct(accounts: Seq<[u8; 20]>) -> bool {
    forall|i: int, j: int|
        0 <= i < j < accounts.len() ==> (#[trigger] accounts[i])@ != (#[trigger] accounts[j])@
}

/// What the accounts hold of an asset, all together.
pub open spec fn sum_held(store: Store, accounts: Seq<[u8; 20]>, asset: [u8; 32]) -> nat
    decreases accounts.len(),
{
    if accounts.len() == 0 {
        0
    } else {
        sum_held(store, accounts.drop_last(), asset) + held(store, accounts.last(), asset)
    }
}

/// What there is of an asset: what the accounts hold of it, free or
/// locked, and what its fee vault holds.
pub open spec fn ledger_total(store: Store, accounts: Seq<[u8; 20]>, asset: [u8; 32]) -> nat {
    sum_held(store, accounts, asset) + vault_total(store, asset)
}

/// Whether what is stored as an order, if it is one, belongs to one of
/// `accounts`.
pub open spec fn order_fits(stored: Option<Option<Order>>, accounts: Seq<[u8; 20]>) -> bool {
    match stored {
        Some(Some(o)) => listed(accounts, o.owner@),
        _ => true,
    }
}

/// Whether every stored order belongs to one of `accounts`.
pub open spec fn makers_listed(store: Store, accounts: Seq<[u8; 20]>) -> bool {
    forall|id: Seq<u8>| order_fits(#[trigger] stored_order(store, id), accounts)
}

/// When every listed account holds what it held, the accounts hold all
/// together what they held.
pub proof fn lemma_sum_unchanged(
    before: Store,
    after: Store,
    accounts: Seq<[u8; 20]>,
    asset: [u8; 32],
)
    requires
        forall|i: int|
            0 <= i < accounts.len() ==> held(after, #[trigger] accounts[i], asset) == held(
                before,
                accounts[i],
                asset,
            ),
    ensures
        sum_held(after, accounts, asset) == sum_held(before, accounts, asset),
    decreases accounts.len(),
{
    if accounts.len() > 0 {
        let head = accounts.drop_last();
        assert forall|i: int| 0 <= i < head.len() implies held(after, #[trigger] head[i], asset)
            == held(before, head[i], asset) by {
            assert(head[i] == accounts[i]);
        }
        lemma_sum_unchanged(before, after, head, asset);
        assert(accounts.last() == accounts[accounts.len() - 1]);
    }
}

/// When one listed account holds `delta` less or more than it held and
/// every other listed account holds what it held, the accounts hold all
/// together `delta` less or more.
pub proof fn lemma_sum_one_changed(
    before: Store,
    after: Store,
    accounts: Seq<[u8; 20]>,
    asset: [u8; 32],
    who: [u8; 20],
    delta: int,
)
    requires
        distinct(accounts),
        listed(accounts, who@),
        held(after, who, asset) == held(before, who, asset) + delta,
        forall|i: int|
            0 <= i < accounts.len() && (#[trigger] accounts[i])@ != who@ ==> held(
                after,
                accounts[i],
                asset,
            ) == held(before, accounts[i], asset),
    ensures
        sum_held(after, accounts, asset) == sum_held(before, accounts, asset) + delta,
    decreases accounts.len(),
{
    let head = accounts.drop_last();
    let last = accounts.last();
    assert(accounts.len() > 0);
    assert(last == accounts[accounts.len() - 1]);
    assert forall|i: int| 0 <= i < head.len() implies (#[trigger] head[i]) == accounts[i] by {}
    if last@ == who@ {
        assert(held(after, last, asset) == held(after, who, asset));
        assert(held(before, last, asset) == held(before, who, asset));
        assert forall|i: int| 0 <= i < head.len() implies held(after, #[trigger] head[i], asset)
            == held(before, head[i], asset) by {
            assert(head[i] == accounts[i]);
            assert(accounts[i]@ != accounts[accounts.len() - 1]@);
        }
        lemma_sum_unchanged(before, after, head, asset);
    } else {
        let w = choose|i: int| 0 <= i < accounts.len() && (#[trigger] accounts[i])@ == who@;
        assert(w < head.len());
        assert(head[w]@ == who@);
        assert(distinct(head)) by {
            assert forall|i: int, j: int| 0 <= i < j < head.len() implies (#[trigger] head[i])@ != (
            #[trigger] head[j])@ by {
                assert(head[i] == accounts[i] && head[j] == accounts[j]);
            }
        }
        assert forall|i: int| 0 <= i < head.len() && (#[trigger] head[i])@ != who@ implies held(
            after,
            head[i],
            asset,
        ) == held(before, head[i], asset) by {
            assert(head[i] == accounts[i]);
        }
        lemma_sum_one_changed(before, after, head, asset, who, delta);
    }
}

/// When two different listed accounts hold `first` and `second` less or
/// more than they held and every other listed account holds what it
/// held, the accounts hold all together `first + second` less or more.
pub proof fn lemma_sum_two_changed(
    before: Store,
    after: Store,
    accounts: Seq<[u8; 20]>,
    asset: [u8; 32],
    one: [u8; 20],
    first: int,
    other: [u8; 20],
    second: int,
)
    requires
        distinct(accounts),
        listed(accounts, one@),
        listed(accounts, other@),
        one@ != other@,
        held(after, one, asset) == held(before, one, asset) + first,
        held(after, other, asset) == held(before, other, asset) + second,
        forall|i: int|
            0 <= i < accounts.len() && (#[trigger] accounts[i])@ != one@ && accounts[i]@ != other@
                ==> held(after, accounts[i], asset) == held(before, accounts[i], asset),
    ensures
        sum_held(after, accounts, asset) == sum_held(before, accounts, asset) + first + second,
    decreases accounts.len(),
{
    let head = accounts.drop_last();
    let last = accounts.last();
    assert(accounts.len() > 0);
    assert(last == accounts[accounts.len() - 1]);
    assert(distinct(head)) by {
        assert forall|i: int, j: int| 0 <= i < j < head.len() implies (#[trigger] head[i])@ != (
        #[trigger] head[j])@ by {
            assert(head[i] == accounts[i] && head[j] == accounts[j]);
        }
    }
    let w1 = choose|i: int| 0 <= i < accounts.len() && (#[trigger] accounts[i])@ == one@;
    let w2 = choose|i: int| 0 <= i < accounts.len() && (#[trigger] accounts[i])@ == other@;
    if last@ == one@ {
        assert(w2 < head.len());
        assert(head[w2]@ == other@);
        assert(held(after, last, asset) == held(after, one, asset));
        assert(held(before, last, asset) == held(before, one, asset));
        assert forall|i: int| 0 <= i < head.len() && (#[trigger] head[i])@ != other@ implies held(
            after,
            head[i],
            asset,
        ) == held(before, head[i], asset) by {
            assert(head[i] == accounts[i]);
            assert(accounts[i]@ != accounts[accounts.len() - 1]@);
        }
        lemma_sum_one_changed(before, after, head, asset, other, second);
    } else if last@ == other@ {
        assert(w1 < head.len());
        assert(head[w1]@ == one@);
        assert(held(after, last, asset) == held(after, other, asset));
        assert(held(before, last, asset) == held(before, other, asset));
        assert forall|i: int| 0 <= i < head.len() && (#[trigger] head[i])@ != one@ implies held(
            after,
            head[i],
            asset,
        ) == held(before, head[i], asset) by {
            assert(head[i] == accounts[i]);
            assert(accounts[i]@ != accounts[accounts.len() - 1]@);
        }
        lemma_sum_one_changed(before, after, head, asset, one, first);
    } else {
        assert(w1 < head.len() && w2 < head.len());
        assert(head[w1]@ == one@ && head[w2]@ == other@);
        assert forall|i: int|
            0 <= i < head.len() && (#[trigger] head[i])@ != one@ && head[i]@ != other@ implies held(
            after,
            head[i],
            asset,
        ) == held(before, head[i], asset) by {
            assert(head[i] == accounts[i]);
        }
        lemma_sum_two_changed(before, after, head, asset, one, first, other, second);
    }
}

/// When the balances and fee vaults are as they were, there is of every
/// asset what there was.
pub proof fn lemma_total_kept(
    before: Store,
    after: Store,
    accounts: Seq<[u8; 20]>,
    asset: [u8; 32],
)
    requires
        collision_free(),
        keeps(before, after, Kind::Balance),
        keeps(before, after, Kind::FeeVault),
    ensures
        ledger_total(after, accounts, asset) == ledger_total(before, accounts, asset),
{
    lemma_key_facts();
    assert forall|i: int| 0 <= i < accounts.len() implies held(after, #[trigger] accounts[i], asset)
        == held(before, accounts[i], asset) by {
        let k = record_key(Kind::Balance, accounts[i]@ + asset@);
        assert(lookup(after, k) == lookup(before, k));
    }
    lemma_sum_unchanged(before, after, accounts, asset);
    let v = record_key(Kind::FeeVault, asset@);
    assert(lookup(after, v) == lookup(before, v));
}

/// One update of a fill changes what the listed accounts hold of its
/// asset by what comes less what leaves, keeps what they hold of every
/// other asset, and writes a balance only.
pub proof fn lemma_adjust_totals(
    store: Store,
    account: [u8; 20],
    asset: [u8; 32],
    taken: nat,
    given: nat,
    max: nat,
    accounts: Seq<[u8; 20]>,
    what: [u8; 32],
)
    requires
        collision_free(),
        distinct(accounts),
        listed(accounts, account@),
        adjust_spec(store, account, asset, taken, given, max) is Some,
    ensures
        ({
            let after = adjust_spec(store, account, asset, taken, given, max).unwrap();
            &&& sum_held(after, accounts, what) + (if what@ == asset@ {
                taken
            } else {
                0
            }) == sum_held(store, accounts, what) + (if what@ == asset@ {
                given
            } else {
                0
            })
            &&& keeps(store, after, Kind::FeeVault)
            &&& keeps(store, after, Kind::Order)
        }),
{
    lemma_key_facts();
    let after = adjust_spec(store, account, asset, taken, given, max).unwrap();
    lemma_adjust_held(store, account, asset, taken, given, max, account, what);
    assert forall|i: int|
        0 <= i < accounts.len() && (#[trigger] accounts[i])@ != account@ implies held(
        after,
        accounts[i],
        what,
    ) == held(store, accounts[i], what) by {
        lemma_adjust_held(store, account, asset, taken, given, max, accounts[i], what);
    }
    if what@ == asset@ {
        assert(what == asset);
    }
    lemma_sum_one_changed(
        store,
        after,
        accounts,
        what,
        account,
        held(after, account, what) - held(store, account, what),
    );
}

/// Settling a fill between listed accounts takes the fee, and nothing
/// else, out of what the accounts hold of the quote asset, keeps what
/// they hold of every other asset, and writes balances only. This holds
/// whether or not taker and maker are one account, and whether or not
/// base and quote are one asset.
pub proof fn lemma_settle_fill_totals(
    store: Store,
    side: Side,
    trader: [u8; 20],
    maker: [u8; 20],
    rules: Rules,
    terms: FillTerms,
    accounts: Seq<[u8; 20]>,
    asset: [u8; 32],
)
    requires
        collision_free(),
        distinct(accounts),
        listed(accounts, trader@),
        listed(accounts, maker@),
        settle_fill_spec(store, side, trader, maker, rules, terms) is Some,
    ensures
        ({
            let after = settle_fill_spec(store, side, trader, maker, rules, terms).unwrap();
            &&& sum_held(after, accounts, asset) + (if asset@ == rules.quote_asset_id@ {
                terms.fee@
            } else {
                0
            }) == sum_held(store, accounts, asset)
            &&& keeps(store, after, Kind::FeeVault)
            &&& keeps(store, after, Kind::Order)
        }),
{
    reveal(settle_fill_spec);
    let quote = rules.quote_asset_id;
    let base = rules.base_asset_id;
    let max = rules.max_balance@;
    let fill = terms.fill_qty@;
    let amount = terms.quote_amt@;
    let fee = terms.fee@;
    match side {
        Side::Buy => {
            let s1 = adjust_spec(store, trader, quote, amount + fee, 0, max).unwrap();
            let s2 = adjust_spec(s1, trader, base, 0, fill, max).unwrap();
            let s3 = adjust_spec(s2, maker, base, fill, 0, max).unwrap();
            lemma_adjust_totals(store, trader, quote, amount + fee, 0, max, accounts, asset);
            lemma_adjust_totals(s1, trader, base, 0, fill, max, accounts, asset);
            lemma_adjust_totals(s2, maker, base, fill, 0, max, accounts, asset);
            lemma_adjust_totals(s3, maker, quote, 0, amount, max, accounts, asset);
        },
        Side::Sell => {
            let s1 = adjust_spec(store, trader, base, fill, 0, max).unwrap();
            let s2 = adjust_spec(s1, trader, quote, 0, (amount - fee) as nat, max).unwrap();
            let s3 = adjust_spec(s2, maker, quote, amount, 0, max).unwrap();
            lemma_adjust_totals(store, trader, base, fill, 0, max, accounts, asset);
            lemma_adjust_totals(s1, trader, quote, 0, (amount - fee) as nat, max, accounts, asset);
            lemma_adjust_totals(s2, maker, quote, amount, 0, max, accounts, asset);
            lemma_adjust_totals(s3, maker, base, 0, fill, max, accounts, asset);
        },
    }
}

/// Collecting a fee moves nothing among the accounts and writes a fee
/// vault only: with the fee that a fill took from the accounts, there is
/// of the asset what there was.
pub proof fn lemma_fee_totals(
    store: Store,
    fee_asset: [u8; 32],
    fee: nat,
    accounts: Seq<[u8; 20]>,
    asset: [u8; 32],
)
    requires
        collision_free(),
        collect_fee_spec(store, fee_asset, fee) is Some,
    ensures
        ({
            let after = collect_fee_spec(store, fee_asset, fee).unwrap();
            &&& sum_held(after, accounts, asset) == sum_held(store, accounts, asset)
            &&& vault_total(after, asset) == vault_total(store, asset) + (if asset@ == fee_asset@ {
                fee
            } else {
                0
            })
            &&& keeps(store, after, Kind::Order)
        }),
{
    let after = collect_fee_spec(store, fee_asset, fee).unwrap();
    lemma_fee_write_keeps(store, fee_asset, fee, Kind::Order);
    lemma_fee_collected(store, fee_asset, fee, arbitrary(), asset);
    assert forall|i: int| 0 <= i < accounts.len() implies held(after, #[trigger] accounts[i], asset)
        == held(store, accounts[i], asset) by {
        lemma_fee_collected(store, fee_asset, fee, accounts[i], asset);
    }
    lemma_sum_unchanged(store, after, accounts, asset);
    if asset@ == fee_asset@ {
        assert(vault_total(after, asset) == vault_total(after, fee_asset));
        assert(vault_total(store, asset) == vault_total(store, fee_asset));
    }
}

/// A fill conserves every asset.
///
/// Absent collisions, for accounts listed once each among which are the taker and the owner of every
/// stored order: after a fill there is of every asset what there was
/// before it, counting what the listed accounts hold and what the fee
/// vault holds; and the stored orders still belong to listed accounts.
pub proof fn lemma_fill_maker_conserves(
    store: Store,
    taker: Taker,
    rules: Rules,
    tick_price: nat,
    node: TickNode,
    remaining: nat,
    totals: Seq<FeeTotal>,
    accounts: Seq<[u8; 20]>,
    asset: [u8; 32],
)
    requires
        collision_free(),
        distinct(accounts),
        listed(accounts, taker.trader@),
        makers_listed(store, accounts),
        fill_maker_spec(store, taker, rules, tick_price, node, remaining, totals) is Some,
    ensures
        ({
            let f = fill_maker_spec(store, taker, rules, tick_price, node, remaining, totals).unwrap();
            &&& ledger_total(f.store, accounts, asset) == ledger_total(store, accounts, asset)
            &&& makers_listed(f.store, accounts)
        }),
{
    reveal(fill_maker_spec);
    lemma_key_facts();
    let maker_id = node.head_order_id;
    assert(stored_order(store, maker_id@) is Some);
    let maker = stored_order(store, maker_id@).unwrap().unwrap();
    assert(order_fits(stored_order(store, maker_id@), accounts));
    let terms = fill_terms_spec(remaining, maker.qty_remaining@, tick_price, rules).unwrap();
    let settled = settle_fill_spec(store, taker.side, taker.trader, maker.owner, rules, terms).unwrap();
    lemma_settle_fill_totals(
        store,
        taker.side,
        taker.trader,
        maker.owner,
        rules,
        terms,
        accounts,
        asset,
    );
    let collected = collect_fee_spec(settled, rules.quote_asset_id, terms.fee@).unwrap();
    lemma_fee_totals(settled, rules.quote_asset_id, terms.fee@, accounts, asset);
    assert(ledger_total(collected, accounts, asset) == ledger_total(store, accounts, asset));
    let left = (maker.qty_remaining@ - terms.fill_qty@) as nat;
    let maker1 = Order {
        owner: maker.owner,
        side: maker.side,
        tick: maker.tick,
        qty_remaining: crate::book::u256(left),
        tif: maker.tif,
        status: if left == 0 {
            OrderStatus::Filled
        } else {
            OrderStatus::Open
        },
    };
    let written = collected.insert(order_key(maker_id@), maker1.encoded());
    assert(keeps(collected, written, Kind::Balance));
    assert(keeps(collected, written, Kind::FeeVault));
    lemma_total_kept(collected, written, accounts, asset);
    lemma_pop_head_keeps(written, node, maker_id, Kind::Balance);
    lemma_pop_head_keeps(written, node, maker_id, Kind::FeeVault);
    lemma_pop_head_keeps(written, node, maker_id, Kind::Order);
    let f = fill_maker_spec(store, taker, rules, tick_price, node, remaining, totals).unwrap();
    if left == 0 {
        let popped = pop_head_spec(written, node, maker_id).unwrap().0;
        assert(f.store == popped);
        lemma_total_kept(written, popped, accounts, asset);
    } else {
        assert(f.store == written);
    }
    assert(keeps(written, f.store, Kind::Order));
    crate::types::lemma_order_decoded(maker1, maker1.encoded());
    assert(order_fits(stored_order(store, maker_id@), accounts));
    assert forall|id: Seq<u8>|
        order_fits(#[trigger] stored_order(f.store, id), accounts) by {
        assert(order_fits(stored_order(store, id), accounts));
        let k = record_key(Kind::Order, id);
        assert(order_key(id) == k);
        assert(lookup(f.store, k) == lookup(written, k));
        if id == maker_id@ {
            assert(stored_order(f.store, id) == Some(Some(maker1)));
        } else {
            assert(lookup(written, k) == lookup(collected, k));
            assert(lookup(collected, k) == lookup(settled, k));
            assert(lookup(settled, k) == lookup(store, k));
            assert(stored_order(f.store, id) == stored_order(store, id));
        }
    }
}

/// When the orders are as they were, the makers stay listed.
pub proof fn lemma_makers_kept(
    before: Store,
    after: Store,
    accounts: Seq<[u8; 20]>,
)
    requires
        collision_free(),
        keeps(before, after, Kind::Order),
        makers_listed(before, accounts),
    ensures
        makers_listed(after, accounts),
{
    lemma_key_facts();
    assert forall|id: Seq<u8>|
        order_fits(#[trigger] stored_order(after, id), accounts) by {
        let k = record_key(Kind::Order, id);
        assert(lookup(after, k) == lookup(before, k));
        assert(order_fits(stored_order(before, id), accounts));
    }
}

/// The matching at a level conserves every asset and keeps the makers
/// listed, under the conditions of `lemma_fill_maker_conserves`.
pub proof fn lemma_match_tick_conserves(
    m: Matching,
    node: TickNode,
    taker: Taker,
    rules: Rules,
    tick_price: nat,
    accounts: Seq<[u8; 20]>,
    asset: [u8; 32],
)
    requires
        collision_free(),
        distinct(accounts),
        listed(accounts, taker.trader@),
        makers_listed(m.store, accounts),
        match_tick_spec(m, node, taker, rules, tick_price) is Some,
    ensures
        ({
            let after = match_tick_spec(m, node, taker, rules, tick_price).unwrap().0;
            &&& ledger_total(after.store, accounts, asset) == ledger_total(m.store, accounts, asset)
            &&& makers_listed(after.store, accounts)
        }),
    decreases rules.max_matches_per_order - m.matches,
{
    if node.head_order_id@ == NONE_ORDER_ID@ || m.remaining == 0 {
    } else {
        lemma_fill_maker_conserves(
            m.store,
            taker,
            rules,
            tick_price,
            node,
            m.remaining,
            m.totals,
            accounts,
            asset,
        );
        let f = fill_maker_spec(m.store, taker, rules, tick_price, node, m.remaining, m.totals).unwrap();
        lemma_match_tick_conserves(
            Matching {
                store: f.store,
                remaining: f.remaining,
                matches: m.matches + 1,
                best: m.best,
                totals: f.totals,
                trades: m.trades.push(f.trade),
            },
            f.node,
            taker,
            rules,
            tick_price,
            accounts,
            asset,
        );
    }
}

/// A step of the walk conserves every asset and keeps the makers listed,
/// under the conditions of `lemma_fill_maker_conserves`.
pub proof fn lemma_match_step_conserves(
    m: Matching,
    taker: Taker,
    rules: Rules,
    accounts: Seq<[u8; 20]>,
    asset: [u8; 32],
)
    requires
        collision_free(),
        distinct(accounts),
        listed(accounts, taker.trader@),
        makers_listed(m.store, accounts),
        match_step_spec(m, taker, rules) is Some,
    ensures
        ({
            let after = match_step_spec(m, taker, rules).unwrap().0;
            &&& ledger_total(after.store, accounts, asset) == ledger_total(m.store, accounts, asset)
            &&& makers_listed(after.store, accounts)
        }),
{
    reveal(match_step_spec);
    lemma_key_facts();
    let book = taker.side.other();
    let current = best_of(m.best, book);
    if current != NONE_TICK {
        let tick_price = price_of(current, rules.tick_size@).unwrap();
        if crosses(taker.side, tick_price, taker.limit_price@) && m.remaining != 0 {
            let node = stored_tick_node(m.store, taker.market_id@, book.code(), current).unwrap();
            lemma_match_tick_conserves(m, node, taker, rules, tick_price, accounts, asset);
            let matched = match_tick_spec(m, node, taker, rules, tick_price).unwrap();
            let m1 = matched.0;
            let node1 = matched.1;
            let after = match_step_spec(m, taker, rules).unwrap().0;
            lemma_drop_tick_keeps(
                m1.store,
                taker.market_id,
                book,
                current,
                node1,
                m1.best,
                Kind::Balance,
            );
            lemma_drop_tick_keeps(
                m1.store,
                taker.market_id,
                book,
                current,
                node1,
                m1.best,
                Kind::FeeVault,
            );
            lemma_drop_tick_keeps(m1.store, taker.market_id, book, current, node1, m1.best, Kind::Order);
            let stored_back = m1.store.insert(
                tick_node_key(taker.market_id@, book.code(), current),
                node1.encoded(),
            );
            assert(keeps(m1.store, stored_back, Kind::Balance));
            assert(keeps(m1.store, stored_back, Kind::FeeVault));
            assert(keeps(m1.store, stored_back, Kind::Order));
            assert(keeps(m1.store, after.store, Kind::Balance));
            assert(keeps(m1.store, after.store, Kind::FeeVault));
            assert(keeps(m1.store, after.store, Kind::Order));
            lemma_total_kept(m1.store, after.store, accounts, asset);
            lemma_makers_kept(m1.store, after.store, accounts);
        }
    }
}

/// The walk over the levels conserves every asset and keeps the makers
/// listed, under the conditions of `lemma_fill_maker_conserves`.
pub proof fn lemma_match_orders_conserves(
    m: Matching,
    taker: Taker,
    rules: Rules,
    fuel: nat,
    accounts: Seq<[u8; 20]>,
    asset: [u8; 32],
)
    requires
        collision_free(),
        distinct(accounts),
        listed(accounts, taker.trader@),
        makers_listed(m.store, accounts),
        match_orders_spec(m, taker, rules, fuel) is Some,
    ensures
        ({
            let after = match_orders_spec(m, taker, rules, fuel).unwrap();
            &&& ledger_total(after.store, accounts, asset) == ledger_total(m.store, accounts, asset)
            &&& makers_listed(after.store, accounts)
        }),
    decreases fuel,
{
    lemma_match_step_conserves(m, taker, rules, accounts, asset);
    let stepped = match_step_spec(m, taker, rules).unwrap();
    if stepped.1 {
        lemma_match_orders_conserves(stepped.0, taker, rules, (fuel - 1) as nat, accounts, asset);
    }
}

/// Placing an order conserves every asset.
///
/// Absent collisions, for accounts listed once each among which are the trader and the owner of every
/// stored order: after the placement there is of every asset what there
/// was before it, counting what the listed accounts hold, free or
/// locked, and what the fee vault holds.
pub proof fn lemma_place_conserves(
    store: Store,
    market: [u8; 32],
    rules: Rules,
    order: NewOrder,
    totals: Seq<FeeTotal>,
    trades: Seq<TradeRecord>,
    accounts: Seq<[u8; 20]>,
    asset: [u8; 32],
)
    requires
        collision_free(),
        distinct(accounts),
        listed(accounts, order.trader@),
        makers_listed(store, accounts),
        place_spec(store, market, rules, order, totals, trades) is Some,
    ensures
        ledger_total(
            place_spec(store, market, rules, order, totals, trades).unwrap().store,
            accounts,
            asset,
        ) == ledger_total(store, accounts, asset),
{
    reveal(place_spec);
    lemma_key_facts();
    let qty = order.qty_base@;
    let price = price_of(order.tick_index, rules.tick_size@).unwrap();
    let locked = lock_taker_spec(store, order.trader, order.side, price, qty, rules).unwrap();
    assert forall|i: int| 0 <= i < accounts.len() implies held(locked, #[trigger] accounts[i], asset)
        == held(store, accounts[i], asset) by {
        lemma_lock_conserves(store, order.trader, order.side, price, qty, rules, accounts[i], asset);
    }
    lemma_sum_unchanged(store, locked, accounts, asset);
    lemma_balance_writes_keep(
        store,
        order.trader,
        order.trader,
        order.side,
        qty,
        price,
        rules,
        arbitrary(),
        Kind::FeeVault,
    );
    lemma_balance_writes_keep(
        store,
        order.trader,
        order.trader,
        order.side,
        qty,
        price,
        rules,
        arbitrary(),
        Kind::Order,
    );
    assert(lookup(locked, record_key(Kind::FeeVault, asset@)) == lookup(
        store,
        record_key(Kind::FeeVault, asset@),
    ));
    assert(ledger_total(locked, accounts, asset) == ledger_total(store, accounts, asset));
    lemma_makers_kept(store, locked, accounts);
    let best = stored_market_best(locked, market@).unwrap();
    let start = Matching { store: locked, remaining: qty, matches: 0, best, totals, trades };
    let taker = Taker {
        market_id: market,
        trader: order.trader,
        order_id: order.order_id,
        side: order.side,
        limit_price: crate::book::u256(price),
    };
    lemma_match_orders_conserves(start, taker, rules, u64::MAX as nat, accounts, asset);
    let m = match_orders_spec(start, taker, rules, u64::MAX as nat).unwrap();
    let after = place_spec(store, market, rules, order, totals, trades).unwrap();
    let released = if order.tif == TimeInForce::Ioc && m.remaining != 0 {
        release_spec(m.store, order.trader, order.side, m.remaining, price, rules).unwrap()
    } else {
        m.store
    };
    if order.tif == TimeInForce::Ioc && m.remaining != 0 {
        assert forall|i: int| 0 <= i < accounts.len() implies held(
            released,
            #[trigger] accounts[i],
            asset,
        ) == held(m.store, accounts[i], asset) by {
            lemma_release_conserves(
                m.store,
                order.trader,
                order.side,
                m.remaining,
                price,
                rules,
                accounts[i],
                asset,
            );
        }
        lemma_sum_unchanged(m.store, released, accounts, asset);
        lemma_balance_writes_keep(
            m.store,
            order.trader,
            order.trader,
            order.side,
            m.remaining,
            price,
            rules,
            arbitrary(),
            Kind::FeeVault,
        );
        assert(lookup(released, record_key(Kind::FeeVault, asset@)) == lookup(
            m.store,
            record_key(Kind::FeeVault, asset@),
        ));
    }
    assert(ledger_total(released, accounts, asset) == ledger_total(m.store, accounts, asset));
    let filled = crate::engine::closed_order(order, OrderStatus::Filled).encoded();
    let canceled = crate::engine::closed_order(order, OrderStatus::Canceled).encoded();
    let with_filled = released.insert(order_key(order.order_id@), filled);
    let with_canceled = released.insert(order_key(order.order_id@), canceled);
    assert(keeps(released, with_filled, Kind::Balance));
    assert(keeps(released, with_filled, Kind::FeeVault));
    assert(keeps(released, with_canceled, Kind::Balance));
    assert(keeps(released, with_canceled, Kind::FeeVault));
    lemma_total_kept(released, with_filled, accounts, asset);
    lemma_total_kept(released, with_canceled, accounts, asset);
    lemma_place_resting_keeps(
        m.store,
        market,
        order.order_id,
        order.trader,
        order.side,
        order.tick_index,
        m.remaining,
        order.tif,
        order.prev_tick_hint,
        order.next_tick_hint,
        m.best,
        Kind::Balance,
    );
    lemma_place_resting_keeps(
        m.store,
        market,
        order.order_id,
        order.trader,
        order.side,
        order.tick_index,
        m.remaining,
        order.tif,
        order.prev_tick_hint,
        order.next_tick_hint,
        m.best,
        Kind::FeeVault,
    );
    if order.tif == TimeInForce::Gtc && m.remaining != 0 {
        lemma_total_kept(m.store, after.store, accounts, asset);
    }
}

/// Placing an order keeps the makers listed: absent collisions, for
/// accounts listed once each among which are the trader and the owner
/// of every stored order, the owner of every order that is stored
/// afterwards is listed.
pub proof fn lemma_place_keeps_makers(
    store: Store,
    market: [u8; 32],
    rules: Rules,
    order: NewOrder,
    totals: Seq<FeeTotal>,
    trades: Seq<TradeRecord>,
    accounts: Seq<[u8; 20]>,
)
    requires
        collision_free(),
        distinct(accounts),
        listed(accounts, order.trader@),
        makers_listed(store, accounts),
        place_spec(store, market, rules, order, totals, trades) is Some,
    ensures
        makers_listed(
            place_spec(store, market, rules, order, totals, trades).unwrap().store,
            accounts,
        ),
{
    reveal(place_spec);
    lemma_key_facts();
    let qty = order.qty_base@;
    let price = price_of(order.tick_index, rules.tick_size@).unwrap();
    let locked = lock_taker_spec(store, order.trader, order.side, price, qty, rules).unwrap();
    lemma_balance_writes_keep(
        store,
        order.trader,
        order.trader,
        order.side,
        qty,
        price,
        rules,
        arbitrary(),
        Kind::Order,
    );
    lemma_makers_kept(store, locked, accounts);
    let best = stored_market_best(locked, market@).unwrap();
    let start = Matching { store: locked, remaining: qty, matches: 0, best, totals, trades };
    let taker = Taker {
        market_id: market,
        trader: order.trader,
        order_id: order.order_id,
        side: order.side,
        limit_price: crate::book::u256(price),
    };
    lemma_match_orders_conserves(start, taker, rules, u64::MAX as nat, accounts, order.order_id);
    let m = match_orders_spec(start, taker, rules, u64::MAX as nat).unwrap();
    let after = place_spec(store, market, rules, order, totals, trades).unwrap().store;
    let id = order.order_id@;
    let mine = record_key(Kind::Order, id);
    assert(order_key(id) == mine);
    if order.tif == TimeInForce::Gtc && m.remaining != 0 {
        reveal(place_resting_spec);
        lemma_links_keep(
            m.store,
            market,
            order.side,
            order.prev_tick_hint,
            order.next_tick_hint,
            order.tick_index,
            order.tick_index,
            Kind::Order,
        );
        let written = Order {
            owner: order.trader,
            side: order.side,
            tick: order.tick_index,
            qty_remaining: crate::book::u256(m.remaining),
            tif: order.tif,
            status: OrderStatus::Open,
        };
        crate::types::lemma_order_decoded(written, written.encoded());
        assert(stored_order(after, id) == Some(Some(written)));
        assert forall|other: Seq<u8>| order_fits(#[trigger] stored_order(after, other), accounts) by {
            let k = record_key(Kind::Order, other);
            assert(order_key(other) == k);
            if other != id {
                assert(lookup(after, k) == lookup(m.store, k));
                assert(order_fits(stored_order(m.store, other), accounts));
            }
        }
    } else {
        let releases = order.tif == TimeInForce::Ioc && m.remaining != 0;
        let released = if releases {
            release_spec(m.store, order.trader, order.side, m.remaining, price, rules).unwrap()
        } else {
            m.store
        };
        if releases {
            lemma_balance_writes_keep(
                m.store,
                order.trader,
                order.trader,
                order.side,
                m.remaining,
                price,
                rules,
                arbitrary(),
                Kind::Order,
            );
        }
        lemma_makers_kept(m.store, released, accounts);
        let status = if m.remaining == 0 {
            OrderStatus::Filled
        } else {
            OrderStatus::Canceled
        };
        let written = crate::engine::closed_order(order, status);
        crate::types::lemma_order_decoded(written, written.encoded());
        assert(after == released.insert(order_key(id), written.encoded()));
        assert(stored_order(after, id) == Some(Some(written)));
        assert forall|other: Seq<u8>| order_fits(#[trigger] stored_order(after, other), accounts) by {
            let k = record_key(Kind::Order, other);
            assert(order_key(other) == k);
            if other != id {
                assert(lookup(after, k) == lookup(released, k));
                assert(order_fits(stored_order(released, other), accounts));
            }
        }
    }
}

/// Cancelling an order keeps the makers listed: absent collisions, the
/// owner of every stored order is listed afterwards when it was before.
pub proof fn lemma_cancel_keeps_makers(
    store: Store,
    market: [u8; 32],
    rules: Rules,
    trader: [u8; 20],
    order_id: [u8; 32],
    accounts: Seq<[u8; 20]>,
)
    requires
        collision_free(),
        makers_listed(store, accounts),
        cancel_spec(store, market, rules, trader, order_id) is Some,
    ensures
        makers_listed(cancel_spec(store, market, rules, trader, order_id).unwrap(), accounts),
{
    reveal(cancel_spec);
    reveal(remove_from_book_spec);
    lemma_key_facts();
    let order = stored_order(store, order_id@).unwrap().unwrap();
    assert(order_fits(stored_order(store, order_id@), accounts));
    let price = price_of(order.tick, rules.tick_size@).unwrap();
    let released = release_spec(store, trader, order.side, order.qty_remaining@, price, rules).unwrap();
    lemma_balance_writes_keep(
        store,
        trader,
        trader,
        order.side,
        order.qty_remaining@,
        price,
        rules,
        arbitrary(),
        Kind::Order,
    );
    lemma_makers_kept(store, released, accounts);
    let written = Order {
        owner: order.owner,
        side: order.side,
        tick: order.tick,
        qty_remaining: crate::book::u256(0),
        tif: order.tif,
        status: OrderStatus::Canceled,
    };
    crate::types::lemma_order_decoded(written, written.encoded());
    let closed = released.insert(order_key(order_id@), written.encoded());
    assert forall|other: Seq<u8>| order_fits(#[trigger] stored_order(closed, other), accounts) by {
        let k = record_key(Kind::Order, other);
        assert(order_key(other) == k);
        assert(order_key(order_id@) == record_key(Kind::Order, order_id@));
        if other != order_id@ {
            assert(lookup(closed, k) == lookup(released, k));
            assert(order_fits(stored_order(released, other), accounts));
        }
    }
    let after = cancel_spec(store, market, rules, trader, order_id).unwrap();
    lemma_removal_keeps_orders(closed, market, order.side, order.tick, order_id);
    lemma_makers_kept(closed, after, accounts);
}

/// Taking an order out of its queue writes no order.
pub proof fn lemma_removal_keeps_orders(
    store: Store,
    market: [u8; 32],
    side: Side,
    tick: i32,
    order_id: [u8; 32],
)
    requires
        collision_free(),
    ensures
        remove_from_book_spec(store, market, side, tick, order_id) matches Some(after) ==> keeps(
            store,
            after,
            Kind::Order,
        ),
{
    reveal(remove_from_book_spec);
    lemma_key_facts();
    if remove_from_book_spec(store, market, side, tick, order_id) is Some {
        let node = stored_tick_node(store, market@, side.code(), tick).unwrap();
        let links = stored_order_node(store, order_id@).unwrap();
        let prev_id = links.prev_order_id;
        let next_id = links.next_order_id;
        let s1 = if prev_id@ != NONE_ORDER_ID@ {
            store.insert(
                order_node_key(prev_id@),
                OrderNode {
                    prev_order_id: stored_order_node(store, prev_id@).unwrap().prev_order_id,
                    next_order_id: next_id,
                }.encoded(),
            )
        } else {
            store
        };
        assert(keeps(store, s1, Kind::Order));
        let s2 = if next_id@ != NONE_ORDER_ID@ {
            s1.insert(
                order_node_key(next_id@),
                OrderNode {
                    prev_order_id: prev_id,
                    next_order_id: stored_order_node(s1, next_id@).unwrap().next_order_id,
                }.encoded(),
            )
        } else {
            s1
        };
        assert(keeps(s1, s2, Kind::Order));
        let s3 = s2.insert(order_node_key(order_id@), crate::engine::empty_order_node().encoded());
        assert(keeps(s2, s3, Kind::Order));
        let n1 = if prev_id@ != NONE_ORDER_ID@ {
            node
        } else {
            TickNode {
                prev_tick: node.prev_tick,
                next_tick: node.next_tick,
                head_order_id: next_id,
                tail_order_id: node.tail_order_id,
            }
        };
        let n2 = if next_id@ != NONE_ORDER_ID@ {
            n1
        } else {
            TickNode {
                prev_tick: n1.prev_tick,
                next_tick: n1.next_tick,
                head_order_id: n1.head_order_id,
                tail_order_id: prev_id,
            }
        };
        lemma_links_keep(
            s3,
            market,
            side,
            n2.prev_tick,
            n2.next_tick,
            n2.next_tick,
            n2.prev_tick,
            Kind::Order,
        );
        let after = remove_from_book_spec(store, market, side, tick, order_id).unwrap();
        assert(keeps(s3, after, Kind::Order));
    }
}

/// A batch conserves every asset.
///
/// Absent collisions, for accounts listed once each among which are the sender of every message and the
/// owner of every stored order: after the batch there is of every asset
/// what there was before it, counting what the listed accounts hold,
/// free or locked, and what the fee vault holds; and the owner of every
/// stored order is still listed.
pub proof fn lemma_batch_conserves(
    store: Store,
    market: [u8; 32],
    rules: Rules,
    domain_sep: [u8; 32],
    messages: Seq<SignedMessage>,
    accounts: Seq<[u8; 20]>,
    asset: [u8; 32],
)
    requires
        collision_free(),
        distinct(accounts),
        makers_listed(store, accounts),
        forall|i: int|
            0 <= i < messages.len() ==> listed(accounts, (#[trigger] messages[i]).message.sender()@),
        batch_spec(store, market, rules, domain_sep, messages) is Some,
    ensures
        ({
            let after = batch_spec(store, market, rules, domain_sep, messages).unwrap().store;
            &&& ledger_total(after, accounts, asset) == ledger_total(store, accounts, asset)
            &&& makers_listed(after, accounts)
        }),
{
    lemma_messages_conserve(
        BatchState { store, totals: Seq::empty(), trades: Seq::empty() },
        market,
        rules,
        domain_sep,
        messages,
        accounts,
        asset,
    );
}

/// Messages conserve every asset, under the conditions of
/// `lemma_batch_conserves`.
pub proof fn lemma_messages_conserve(
    b: BatchState,
    market: [u8; 32],
    rules: Rules,
    domain_sep: [u8; 32],
    messages: Seq<SignedMessage>,
    accounts: Seq<[u8; 20]>,
    asset: [u8; 32],
)
    requires
        collision_free(),
        distinct(accounts),
        makers_listed(b.store, accounts),
        forall|i: int|
            0 <= i < messages.len() ==> listed(accounts, (#[trigger] messages[i]).message.sender()@),
        run_messages(b, market, rules, domain_sep, messages) is Some,
    ensures
        ({
            let after = run_messages(b, market, rules, domain_sep, messages).unwrap().store;
            &&& ledger_total(after, accounts, asset) == ledger_total(b.store, accounts, asset)
            &&& makers_listed(after, accounts)
        }),
    decreases messages.len(),
{
    if messages.len() > 0 {
        reveal(message_spec);
        lemma_key_facts();
        let signed = messages[0];
        let message = signed.message;
        let trader = message.sender();
        assert(listed(accounts, messages[0].message.sender()@));
        let counted = b.store.insert(
            nonce_key(trader@),
            crate::bytes::be_bytes(message.sequence() as nat, 8),
        );
        assert(keeps(b.store, counted, Kind::Balance));
        assert(keeps(b.store, counted, Kind::FeeVault));
        assert(keeps(b.store, counted, Kind::Order));
        lemma_total_kept(b.store, counted, accounts, asset);
        lemma_makers_kept(b.store, counted, accounts);
        let b1 = message_spec(b, market, rules, domain_sep, signed).unwrap();
        match message {
            Message::Place { .. } => {
                let order = crate::engine::new_order_of(message);
                lemma_place_conserves(counted, market, rules, order, b.totals, b.trades, accounts, asset);
                lemma_place_keeps_makers(counted, market, rules, order, b.totals, b.trades, accounts);
            },
            Message::Cancel { trader, order_id, .. } => {
                lemma_cancel_total(counted, market, rules, trader, order_id, accounts, asset);
                lemma_cancel_keeps_makers(counted, market, rules, trader, order_id, accounts);
            },
        }
        let rest = messages.skip(1);
        assert forall|i: int| 0 <= i < rest.len() implies listed(
            accounts,
            (#[trigger] rest[i]).message.sender()@,
        ) by {
            assert(rest[i] == messages[i + 1]);
        }
        lemma_messages_conserve(b1, market, rules, domain_sep, rest, accounts, asset);
    }
}

/// Cancelling an order conserves every asset: for any accounts, there is
/// of every asset afterwards what there was before.
pub proof fn lemma_cancel_total(
    store: Store,
    market: [u8; 32],
    rules: Rules,
    trader: [u8; 20],
    order_id: [u8; 32],
    accounts: Seq<[u8; 20]>,
    asset: [u8; 32],
)
    requires
        collision_free(),
        cancel_spec(store, market, rules, trader, order_id) is Some,
    ensures
        ledger_total(cancel_spec(store, market, rules, trader, order_id).unwrap(), accounts, asset)
            == ledger_total(store, accounts, asset),
{
    let after = cancel_spec(store, market, rules, trader, order_id).unwrap();
    assert forall|i: int| 0 <= i < accounts.len() implies held(after, #[trigger] accounts[i], asset)
        == held(store, accounts[i], asset) by {
        lemma_cancel_conserves(store, market, rules, trader, order_id, accounts[i], asset);
    }
    lemma_sum_unchanged(store, after, accounts, asset);
    lemma_cancel_conserves(store, market, rules, trader, order_id, trader, asset);
}

/// A batch hands out its fee totals in ascending order of their asset
/// ids, each asset once.
pub proof fn lemma_batch_totals_sorted(
    store: Store,
    market: [u8; 32],
    rules: Rules,
    domain_sep: [u8; 32],
    messages: Seq<SignedMessage>,
)
    requires
        crate::engine::batch_spec(store, market, rules, domain_sep, messages) is Some,
    ensures
        totals_sorted(
            crate::engine::batch_spec(store, market, rules, domain_sep, messages).unwrap().totals,
        ),
{
    lemma_run_totals_sorted(
        BatchState { store, totals: Seq::empty(), trades: Seq::empty() },
        market,
        rules,
        domain_sep,
        messages,
    );
}

/// Carrying out messages keeps the fee totals sorted.
pub proof fn lemma_run_totals_sorted(
    b: BatchState,
    market: [u8; 32],
    rules: Rules,
    domain_sep: [u8; 32],
    messages: Seq<SignedMessage>,
)
    requires
        totals_sorted(b.totals),
        run_messages(b, market, rules, domain_sep, messages) is Some,
    ensures
        totals_sorted(run_messages(b, market, rules, domain_sep, messages).unwrap().totals),
    decreases messages.len(),
{
    if messages.len() > 0 {
        reveal(message_spec);
        reveal(place_spec);
        let first = messages[0];
        let b1 = message_spec(b, market, rules, domain_sep, first).unwrap();
        match first.message {
            Message::Place { .. } => {
                let order = new_order_of(first.message);
                let counted = b.store.insert(
                    nonce_key(first.message.sender()@),
                    be_bytes(first.message.sequence() as nat, 8),
                );
                let price = price_of(order.tick_index, rules.tick_size@).unwrap();
                let locked = lock_taker_spec(
                    counted,
                    order.trader,
                    order.side,
                    price,
                    order.qty_base@,
                    rules,
                ).unwrap();
                let start = Matching {
                    store: locked,
                    remaining: order.qty_base@,
                    matches: 0,
                    best: stored_market_best(locked, market@).unwrap(),
                    totals: b.totals,
                    trades: b.trades,
                };
                let taker = Taker {
                    market_id: market,
                    trader: order.trader,
                    order_id: order.order_id,
                    side: order.side,
                    limit_price: crate::book::u256(price),
                };
                lemma_match_orders_totals_sorted(start, taker, rules, u64::MAX as nat);
            },
            Message::Cancel { .. } => {},
        }
        lemma_run_totals_sorted(b1, market, rules, domain_sep, messages.skip(1));
    }
}

/// The walk over the levels keeps the fee totals sorted.
pub proof fn lemma_match_orders_totals_sorted(m: Matching, taker: Taker, rules: Rules, fuel: nat)
    requires
        totals_sorted(m.totals),
        match_orders_spec(m, taker, rules, fuel) is Some,
    ensures
        totals_sorted(match_orders_spec(m, taker, rules, fuel).unwrap().totals),
    decreases fuel,
{
    reveal(match_step_spec);
    let stepped = match_step_spec(m, taker, rules).unwrap();
    let book = taker.side.other();
    let current = best_of(m.best, book);
    if current != NONE_TICK {
        let tick_price = price_of(current, rules.tick_size@).unwrap();
        if crosses(taker.side, tick_price, taker.limit_price@) && m.remaining != 0 {
            let node = stored_tick_node(m.store, taker.market_id@, book.code(), current).unwrap();
            lemma_match_tick_totals_sorted(m, node, taker, rules, tick_price);
        }
    }
    if stepped.1 {
        lemma_match_orders_totals_sorted(stepped.0, taker, rules, (fuel - 1) as nat);
    }
}

/// The matching at a level keeps the fee totals sorted.
pub proof fn lemma_match_tick_totals_sorted(
    m: Matching,
    node: TickNode,
    taker: Taker,
    rules: Rules,
    tick_price: nat,
)
    requires
        totals_sorted(m.totals),
        match_tick_spec(m, node, taker, rules, tick_price) is Some,
    ensures
        totals_sorted(match_tick_spec(m, node, taker, rules, tick_price).unwrap().0.totals),
    decreases rules.max_matches_per_order - m.matches,
{
    if node.head_order_id@ == NONE_ORDER_ID@ || m.remaining == 0 {
    } else {
        reveal(fill_maker_spec);
        let f = fill_maker_spec(m.store, taker, rules, tick_price, node, m.remaining, m.totals).unwrap();
        let maker = stored_order(m.store, node.head_order_id@).unwrap().unwrap();
        let terms = fill_terms_spec(m.remaining, maker.qty_remaining@, tick_price, rules).unwrap();
        crate::book::lemma_totals_stay_sorted(m.totals, rules.quote_asset_id, terms.fee@);
        lemma_match_tick_totals_sorted(
            Matching {
                store: f.store,
                remaining: f.remaining,
                matches: m.matches + 1,
                best: m.best,
                totals: f.totals,
                trades: m.trades.push(f.trade),
            },
            f.node,
            taker,
            rules,
            tick_price,
        );
    }
}

} // verus!
