use crate::errors::CoreError;
use crate::input::Rules;
use crate::math::mul_div_down;
use crate::math::mul_div_down_spec;
use crate::math::mul_div_up;
use crate::math::mul_div_up_spec;
use crate::types::Balance;
use crate::types::FeeTotal;
use crate::wide::two_128;
use crate::wide::two_256;
use crate::wide::U256;
use crate::steps::has_cause;
use crate::steps::Cause;
use vstd::prelude::*;

verus! {

/// The 256-bit value of the number `n`, for `n` below `2^256`.
pub open spec fn u256(n: nat) -> U256 {
    U256 { hi: (n / two_128()) as u128, lo: (n % two_128()) as u128 }
}

/// `u256` undoes the view, and the view undoes `u256` on numbers that fit.
pub proof fn lemma_u256(x: U256, n: nat)
    ensures
        u256(x@) == x,
        n < two_256() ==> u256(n)@ == n,
{
    vstd::arithmetic::div_mod::lemma_fundamental_div_mod_converse(
        x@ as int,
        two_128() as int,
        x.hi as int,
        x.lo as int,
    );
    if n < two_256() {
        vstd::arithmetic::div_mod::lemma_fundamental_div_mod(n as int, two_128() as int);
        assert(n / two_128() < two_128()) by (nonlinear_arith)
            requires
                n < two_128() * two_128(),
                two_128() > 0,
        ;
        assert(two_128() * (n / two_128()) == (n / two_128()) * two_128()) by (nonlinear_arith);
    }
}

/// What an account holds of an asset in all: the free part and the locked part.
pub open spec fn holdings(b: Balance) -> nat {
    b.available@ + b.locked@
}

/// Whether neither part of a balance exceeds `max`.
pub open spec fn within_limit(b: Balance, max: nat) -> bool {
    b.available@ <= max && b.locked@ <= max
}

/// The balance after `amount` moves from the free part to the locked
/// part: `None` when less than `amount` is free, when the locked part
/// would not fit in 256 bits, or when a part would exceed `max`.
pub open spec fn lock_funds_spec(b: Balance, amount: nat, max: nat) -> Option<Balance> {
    if b.available@ < amount || b.locked@ + amount >= two_256() {
        None
    } else {
        let after = Balance {
            available: u256((b.available@ - amount) as nat),
            locked: u256(b.locked@ + amount),
        };
        if within_limit(after, max) {
            Some(after)
        } else {
            None
        }
    }
}

/// The balance after `amount` moves from the locked part back to the free
/// part: `None` when less than `amount` is locked, when the free part
/// would not fit in 256 bits, or when a part would exceed `max`.
pub open spec fn release_funds_spec(b: Balance, amount: nat, max: nat) -> Option<Balance> {
    if b.locked@ < amount || b.available@ + amount >= two_256() {
        None
    } else {
        let after = Balance {
            available: u256(b.available@ + amount),
            locked: u256((b.locked@ - amount) as nat),
        };
        if within_limit(after, max) {
            Some(after)
        } else {
            None
        }
    }
}

/// Why a lock is refused: `Math` when the amount is free but the locked
/// part would not fit in 256 bits, `Invalid` otherwise.
pub open spec fn lock_cause(b: Balance, amount: nat) -> Cause {
    if b.available@ >= amount && b.locked@ + amount >= two_256() {
        Cause::Math
    } else {
        Cause::Invalid
    }
}

/// Why a release is refused: `Math` when the amount is locked but the
/// free part would not fit in 256 bits, `Invalid` otherwise.
pub open spec fn release_cause(b: Balance, amount: nat) -> Cause {
    if b.locked@ >= amount && b.available@ + amount >= two_256() {
        Cause::Math
    } else {
        Cause::Invalid
    }
}

/// The balance after one update of a fill: `taken` leaves the locked
/// part and `given` comes to the free part. `None` when less than
/// `taken` is locked, when the free part would not fit in 256 bits, or
/// when a part would exceed `max`.
pub open spec fn adjusted(b: Balance, taken: nat, given: nat, max: nat) -> Option<Balance> {
    if b.locked@ < taken || b.available@ + given >= two_256() {
        None
    } else {
        let after = Balance {
            available: u256(b.available@ + given),
            locked: u256((b.locked@ - taken) as nat),
        };
        if within_limit(after, max) {
            Some(after)
        } else {
            None
        }
    }
}

/// Why an update of a fill is refused: `Math` when enough is locked but
/// the free part would not fit in 256 bits, `Invalid` otherwise.
pub open spec fn adjust_cause(b: Balance, taken: nat, given: nat) -> Cause {
    if b.locked@ >= taken && b.available@ + given >= two_256() {
        Cause::Math
    } else {
        Cause::Invalid
    }
}

/// The terms of a fill.
#[derive(Clone, Copy, Debug)]
pub struct FillTerms {
    pub fill_qty: U256,
    pub quote_amt: U256,
    pub fee: U256,
}

/// The terms of a fill of a maker with `maker_qty` left by a taker with
/// `remaining` left, at the maker's price: the smaller quantity, its
/// price rounded down, and the taker fee on that rounded up. `None` when
/// one of the two divisions fails.
pub open spec fn fill_terms_spec(remaining: nat, maker_qty: nat, tick_price: nat, rules: Rules) -> Option<
    FillTerms,
> {
    let fill = if remaining < maker_qty {
        remaining
    } else {
        maker_qty
    };
    match mul_div_down_spec(tick_price, fill, rules.price_scale@) {
        Some(quote_amt) => match mul_div_up_spec(quote_amt, rules.taker_fee_bps as nat, 10000) {
            Some(fee) => Some(
                FillTerms { fill_qty: u256(fill), quote_amt: u256(quote_amt), fee: u256(fee) },
            ),
            None => None,
        },
        None => None,
    }
}

/// An update of a fill moves `taken` out of the locked part and `given`
/// into the free part, and leaves both parts within the limit.
pub proof fn lemma_adjusted(b: Balance, taken: nat, given: nat, max: nat)
    ensures
        adjusted(b, taken, given, max) matches Some(after) ==> holdings(after) + taken
            == holdings(b) + given && within_limit(after, max),
{
    if adjusted(b, taken, given, max) is Some {
        lemma_u256(b.available, b.available@ + given);
        lemma_u256(b.locked, (b.locked@ - taken) as nat);
    }
}

/// Locking and releasing move value between the two parts of one balance
/// and keep what the account holds in all. Both leave each part within
/// the limit.
pub proof fn lemma_lock_release_conserve(b: Balance, amount: nat, max: nat)
    ensures
        lock_funds_spec(b, amount, max) matches Some(after) ==> holdings(after) == holdings(b)
            && within_limit(after, max),
        release_funds_spec(b, amount, max) matches Some(after) ==> holdings(after) == holdings(b)
            && within_limit(after, max),
{
    if lock_funds_spec(b, amount, max) is Some {
        lemma_u256(b.available, (b.available@ - amount) as nat);
        lemma_u256(b.locked, b.locked@ + amount);
    }
    if release_funds_spec(b, amount, max) is Some {
        lemma_u256(b.available, b.available@ + amount);
        lemma_u256(b.locked, (b.locked@ - amount) as nat);
    }
}

/// Succeeds exactly when neither part of the balance exceeds `max_balance`.
pub fn ensure_balance_limit(balance: &Balance, max_balance: U256) -> (r: Result<(), CoreError>)
    ensures
        r is Ok <==> within_limit(*balance, max_balance@),
        r matches Err(e) ==> e is Invalid,
{
    if balance.available.gt(&max_balance) || balance.locked.gt(&max_balance) {
        return Err(CoreError::Invalid("balance exceeds maxBalance"));
    }
    Ok(())
}

/// Moves `amount` from the free part of `balance` to the locked part.
/// Fails with `Invalid` when less than `amount` is free or a part would
/// exceed `max_balance`, and with `Math` when the locked part would not
/// fit in 256 bits.
pub fn lock_funds(
    balance: &Balance,
    amount: U256,
    max_balance: U256,
    shortfall: &'static str,
) -> (r: Result<Balance, CoreError>)
    ensures
        match r {
            Ok(after) => lock_funds_spec(*balance, amount@, max_balance@) == Some(after),
            Err(e) => lock_funds_spec(*balance, amount@, max_balance@) is None && has_cause(
                e,
                lock_cause(*balance, amount@),
            ),
        },
{
    let available = match balance.available.checked_sub(&amount) {
        Some(v) => v,
        None => {
            return Err(CoreError::Invalid(shortfall));
        },
    };
    let locked = match balance.locked.checked_add(&amount) {
        Some(v) => v,
        None => {
            return Err(CoreError::Math("balance overflow"));
        },
    };
    proof {
        lemma_u256(available, 0);
        lemma_u256(locked, 0);
    }
    let after = Balance { available, locked };
    ensure_balance_limit(&after, max_balance)?;
    Ok(after)
}

/// Moves `amount` from the locked part of `balance` back to the free
/// part. Fails with `Invalid` when less than `amount` is locked or a
/// part would exceed `max_balance`, and with `Math` when the free part
/// would not fit in 256 bits.
pub fn release_funds(
    balance: &Balance,
    amount: U256,
    max_balance: U256,
    shortfall: &'static str,
) -> (r: Result<Balance, CoreError>)
    ensures
        match r {
            Ok(after) => release_funds_spec(*balance, amount@, max_balance@) == Some(after),
            Err(e) => release_funds_spec(*balance, amount@, max_balance@) is None && has_cause(
                e,
                release_cause(*balance, amount@),
            ),
        },
{
    let locked = match balance.locked.checked_sub(&amount) {
        Some(v) => v,
        None => {
            return Err(CoreError::Invalid(shortfall));
        },
    };
    let available = match balance.available.checked_add(&amount) {
        Some(v) => v,
        None => {
            return Err(CoreError::Math("balance overflow"));
        },
    };
    proof {
        lemma_u256(available, 0);
        lemma_u256(locked, 0);
    }
    let after = Balance { available, locked };
    ensure_balance_limit(&after, max_balance)?;
    Ok(after)
}

/// Sums two amounts that must fit in 256 bits.
fn add_amounts(a: U256, b: U256) -> (r: Result<U256, CoreError>)
    ensures
        match r {
            Ok(sum) => sum@ == a@ + b@ && sum == u256(a@ + b@),
            Err(e) => e is Math && a@ + b@ >= two_256(),
        },
{
    match a.checked_add(&b) {
        Some(sum) => {
            proof {
                lemma_u256(sum, 0);
            }
            Ok(sum)
        },
        None => Err(CoreError::Math("balance overflow")),
    }
}

/// Takes `b` from `a`, which must be at least as large.
fn take_amount(a: U256, b: U256, shortfall: &'static str) -> (r: Result<U256, CoreError>)
    ensures
        match r {
            Ok(diff) => diff@ == a@ - b@ && diff == u256((a@ - b@) as nat),
            Err(e) => e is Invalid && a@ < b@,
        },
{
    match a.checked_sub(&b) {
        Some(diff) => {
            proof {
                lemma_u256(diff, 0);
            }
            Ok(diff)
        },
        None => Err(CoreError::Invalid(shortfall)),
    }
}

/// Applies one update of a fill to a balance: `taken` leaves the locked
/// part and `given` comes to the free part. Fails with `Invalid` when
/// less than `taken` is locked or a part would exceed `max_balance`, and
/// with `Math` when the free part would not fit in 256 bits.
pub fn adjust(
    balance: &Balance,
    taken: U256,
    given: U256,
    max_balance: U256,
    shortfall: &'static str,
) -> (r: Result<Balance, CoreError>)
    ensures
        match r {
            Ok(after) => adjusted(*balance, taken@, given@, max_balance@) == Some(after),
            Err(e) => adjusted(*balance, taken@, given@, max_balance@) is None && has_cause(
                e,
                adjust_cause(*balance, taken@, given@),
            ),
        },
{
    let locked = take_amount(balance.locked, taken, shortfall)?;
    let available = add_amounts(balance.available, given)?;
    let after = Balance { available, locked };
    ensure_balance_limit(&after, max_balance)?;
    Ok(after)
}

/// Computes the terms of a fill. Fails with `Math` when one of the two
/// divisions fails; succeeds otherwise.
pub fn fill_amounts(remaining: U256, maker_qty: U256, tick_price: U256, rules: &Rules) -> (r: Result<
    FillTerms,
    CoreError,
>)
    ensures
        match r {
            Ok(terms) => fill_terms_spec(remaining@, maker_qty@, tick_price@, *rules) == Some(
                terms,
            ),
            Err(e) => e is Math && fill_terms_spec(remaining@, maker_qty@, tick_price@, *rules)
                is None,
        },
{
    let fill_qty = if remaining.lt(&maker_qty) {
        remaining
    } else {
        maker_qty
    };
    let quote_amt = mul_div_down(tick_price, fill_qty, rules.price_scale)?;
    let fee = mul_div_up(
        quote_amt,
        U256::from_u64(rules.taker_fee_bps as u64),
        U256::from_u64(10_000u64),
    )?;
    proof {
        lemma_u256(fill_qty, 0);
        lemma_u256(quote_amt, 0);
        lemma_u256(fee, 0);
    }
    Ok(FillTerms { fill_qty, quote_amt, fee })
}

/// Whether `a` comes before `b` when the two are compared byte by byte
/// from the front.
pub open spec fn bytes_before(a: Seq<u8>, b: Seq<u8>) -> bool
    decreases a.len(),
{
    if a.len() == 0 || b.len() == 0 {
        a.len() < b.len()
    } else if a[0] != b[0] {
        a[0] < b[0]
    } else {
        bytes_before(a.skip(1), b.skip(1))
    }
}

/// Whether the totals are in ascending order of their asset ids, each
/// asset once.
pub open spec fn totals_sorted(totals: Seq<FeeTotal>) -> bool {
    forall|i: int, j: int|
        0 <= i < j < totals.len() ==> bytes_before(
            (#[trigger] totals[i]).asset_id@,
            (#[trigger] totals[j]).asset_id@,
        )
}

/// The place of `asset` among sorted totals: the index of the first total
/// whose asset does not come before it.
pub open spec fn total_slot(totals: Seq<FeeTotal>, asset: Seq<u8>) -> nat
    decreases totals.len(),
{
    if totals.len() == 0 || !bytes_before(totals[0].asset_id@, asset) {
        0
    } else {
        1 + total_slot(totals.skip(1), asset)
    }
}

/// The totals after `fee` is collected in `asset`: the total of the asset
/// grows by the fee, and an asset that had none gets one at its place in
/// the order, even for a fee of zero. `None` when the total would not fit
/// in 256 bits.
pub open spec fn totals_add(totals: Seq<FeeTotal>, asset: [u8; 32], fee: nat) -> Option<
    Seq<FeeTotal>,
> {
    let slot = total_slot(totals, asset@) as int;
    if slot < totals.len() && totals[slot].asset_id@ == asset@ {
        if totals[slot].total_fee@ + fee >= two_256() {
            None
        } else {
            Some(
                totals.update(
                    slot,
                    FeeTotal {
                        asset_id: totals[slot].asset_id,
                        total_fee: u256(totals[slot].total_fee@ + fee),
                    },
                ),
            )
        }
    } else {
        Some(totals.insert(slot, FeeTotal { asset_id: asset, total_fee: u256(fee) }))
    }
}

/// Byte order is a strict order on byte strings of one length: of two
/// different strings one comes before the other, never both, and the
/// order carries over from one pair to the next.
pub proof fn lemma_byte_order(a: Seq<u8>, b: Seq<u8>, c: Seq<u8>)
    requires
        a.len() == b.len(),
        b.len() == c.len(),
    ensures
        !(bytes_before(a, b) && bytes_before(b, a)),
        !bytes_before(a, a),
        a != b ==> bytes_before(a, b) || bytes_before(b, a),
        bytes_before(a, b) && bytes_before(b, c) ==> bytes_before(a, c),
    decreases a.len(),
{
    if a.len() > 0 {
        lemma_byte_order(a.skip(1), b.skip(1), c.skip(1));
        if a[0] == b[0] && a.skip(1) == b.skip(1) {
            assert forall|i: int| 0 <= i < a.len() implies a[i] == b[i] by {
                if i > 0 {
                    assert(a.skip(1)[i - 1] == a[i]);
                    assert(b.skip(1)[i - 1] == b[i]);
                }
            }
            assert(a =~= b);
        }
    } else {
        assert(a =~= b);
    }
}

/// Among sorted totals, every total before the place of an asset comes
/// before the asset, and the total at the place does not.
pub proof fn lemma_total_slot(totals: Seq<FeeTotal>, asset: Seq<u8>)
    requires
        totals_sorted(totals),
        asset.len() == 32,
    ensures
        total_slot(totals, asset) <= totals.len(),
        forall|i: int|
            0 <= i < total_slot(totals, asset) ==> bytes_before(
                (#[trigger] totals[i]).asset_id@,
                asset,
            ),
        forall|i: int|
            total_slot(totals, asset) <= i < totals.len() ==> !bytes_before(
                (#[trigger] totals[i]).asset_id@,
                asset,
            ),
    decreases totals.len(),
{
    if totals.len() == 0 {
    } else if !bytes_before(totals[0].asset_id@, asset) {
        assert forall|i: int| 0 <= i < totals.len() implies !bytes_before(
            (#[trigger] totals[i]).asset_id@,
            asset,
        ) by {
            if i > 0 {
                lemma_byte_order(totals[0].asset_id@, totals[i].asset_id@, asset);
            }
        }
    } else {
        let rest = totals.skip(1);
        assert forall|i: int, j: int| 0 <= i < j < rest.len() implies bytes_before(
            (#[trigger] rest[i]).asset_id@,
            (#[trigger] rest[j]).asset_id@,
        ) by {
            assert(rest[i] == totals[i + 1] && rest[j] == totals[j + 1]);
        }
        lemma_total_slot(rest, asset);
        assert forall|i: int| 0 <= i < total_slot(totals, asset) implies bytes_before(
            (#[trigger] totals[i]).asset_id@,
            asset,
        ) by {
            if i > 0 {
                assert(rest[i - 1] == totals[i]);
            }
        }
        assert forall|i: int| total_slot(totals, asset) <= i < totals.len() implies !bytes_before(
            (#[trigger] totals[i]).asset_id@,
            asset,
        ) by {
            assert(rest[i - 1] == totals[i]);
        }
    }
}

/// Collecting a fee keeps the totals sorted: in ascending order of their
/// asset ids, each asset once.
pub proof fn lemma_totals_stay_sorted(totals: Seq<FeeTotal>, asset: [u8; 32], fee: nat)
    requires
        totals_sorted(totals),
        totals_add(totals, asset, fee) is Some,
    ensures
        totals_sorted(totals_add(totals, asset, fee).unwrap()),
{
    let after = totals_add(totals, asset, fee).unwrap();
    let slot = total_slot(totals, asset@) as int;
    lemma_total_slot(totals, asset@);
    if slot < totals.len() && totals[slot].asset_id@ == asset@ {
        assert forall|i: int, j: int| 0 <= i < j < after.len() implies bytes_before(
            (#[trigger] after[i]).asset_id@,
            (#[trigger] after[j]).asset_id@,
        ) by {
            assert(after[i].asset_id@ == totals[i].asset_id@);
            assert(after[j].asset_id@ == totals[j].asset_id@);
        }
    } else {
        assert forall|i: int, j: int| 0 <= i < j < after.len() implies bytes_before(
            (#[trigger] after[i]).asset_id@,
            (#[trigger] after[j]).asset_id@,
        ) by {
            let a = if i < slot {
                i
            } else {
                i - 1
            };
            let b = if j < slot {
                j
            } else {
                j - 1
            };
            if i == slot {
                assert(after[j] == totals[j - 1]);
                lemma_byte_order(asset@, totals[j - 1].asset_id@, asset@);
                if j - 1 > slot {
                    lemma_byte_order(asset@, totals[slot].asset_id@, totals[j - 1].asset_id@);
                }
            } else if j == slot {
                assert(after[i] == totals[i]);
            } else {
                assert(after[i] == totals[a] && after[j] == totals[b]);
            }
        }
    }
}

/// Whether `a` comes before `b` in byte order.
fn before_in_order(a: &[u8; 32], b: &[u8; 32]) -> (r: bool)
    ensures
        r == bytes_before(a@, b@),
{
    let mut i: usize = 0;
    proof {
        assert(a@.skip(0) =~= a@);
        assert(b@.skip(0) =~= b@);
    }
    while i < 32
        invariant
            i <= 32,
            bytes_before(a@, b@) == bytes_before(a@.skip(i as int), b@.skip(i as int)),
        decreases 32 - i,
    {
        proof {
            assert(a@.skip(i as int)[0] == a@[i as int]);
            assert(b@.skip(i as int)[0] == b@[i as int]);
            assert(a@.skip(i as int).skip(1) =~= a@.skip(i + 1));
            assert(b@.skip(i as int).skip(1) =~= b@.skip(i + 1));
        }
        if a[i] != b[i] {
            return a[i] < b[i];
        }
        i += 1;
    }
    false
}

/// Collects `fee` in `asset`.
/// Fails with `Math` when the total would not fit in 256 bits.
pub fn accumulate_fee(totals: &mut Vec<FeeTotal>, asset: &[u8; 32], fee: U256) -> (r: Result<
    (),
    CoreError,
>)
    ensures
        match r {
            Ok(()) => totals_add(old(totals)@, *asset, fee@) == Some(final(totals)@),
            Err(e) => e is Math && totals_add(old(totals)@, *asset, fee@) is None && final(totals)@
                == old(totals)@,
        },
{
    let mut slot: usize = 0;
    proof {
        assert(totals@.skip(0) =~= totals@);
    }
    while slot < totals.len() && before_in_order(&totals[slot].asset_id, asset)
        invariant
            slot <= totals@.len(),
            totals@ == old(totals)@,
            total_slot(totals@, asset@) == slot + total_slot(totals@.skip(slot as int), asset@),
        decreases totals@.len() - slot,
    {
        proof {
            assert(totals@.skip(slot as int)[0] == totals@[slot as int]);
            assert(totals@.skip(slot as int).skip(1) =~= totals@.skip(slot + 1));
        }
        slot += 1;
    }
    proof {
        if slot < totals@.len() {
            assert(totals@.skip(slot as int)[0] == totals@[slot as int]);
        }
    }
    if slot < totals.len() && crate::bytes::same_bytes(
        totals[slot].asset_id.as_slice(),
        asset.as_slice(),
    ) {
        let current = totals[slot];
        let sum = match current.total_fee.checked_add(&fee) {
            Some(v) => v,
            None => {
                return Err(CoreError::Math("fee total overflow"));
            },
        };
        proof {
            lemma_u256(sum, 0);
        }
        totals.set(slot, FeeTotal { asset_id: current.asset_id, total_fee: sum });
    } else {
        proof {
            lemma_u256(fee, 0);
        }
        totals.insert(slot, FeeTotal { asset_id: *asset, total_fee: fee });
    }
    Ok(())
}

} // verus!
