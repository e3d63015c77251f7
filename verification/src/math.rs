use crate::errors::CoreError;
use crate::wide::div_wide;
use crate::wide::mul_wide;
use crate::wide::two_256;
use crate::wide::U256;
use vstd::arithmetic::div_mod::lemma_fundamental_div_mod;
use vstd::arithmetic::div_mod::lemma_fundamental_div_mod_converse;
use vstd::prelude::*;

verus! {

/// `⌊a·b / d⌋`, or `None` when `d` is 0 or the quotient needs more than 256 bits.
pub open spec fn mul_div_down_spec(a: nat, b: nat, d: nat) -> Option<nat> {
    if d == 0 || (a * b) / d >= two_256() {
        None
    } else {
        Some((a * b) / d)
    }
}

/// `⌈a·b / d⌉`, or `None` when `d` is 0 or the quotient needs more than 256 bits.
pub open spec fn mul_div_up_spec(a: nat, b: nat, d: nat) -> Option<nat> {
    if d == 0 || ((a * b + d - 1) / (d as int)) >= two_256() {
        None
    } else {
        Some(((a * b + d - 1) / (d as int)) as nat)
    }
}

/// Rounding up adds one to the floor exactly when the division leaves a remainder.
pub proof fn lemma_ceiling(p: nat, d: nat)
    requires
        d > 0,
    ensures
        (p + d - 1) / (d as int) == p / d + (if p % d == 0 {
            0nat
        } else {
            1nat
        }),
{
    let q = p / d;
    let m = p % d;
    lemma_fundamental_div_mod(p as int, d as int);
    if m == 0 {
        assert(p + d - 1 == q * d + (d - 1)) by (nonlinear_arith)
            requires
                p == d * q + m,
                m == 0,
        ;
        lemma_fundamental_div_mod_converse((p + d - 1) as int, d as int, q as int, (d - 1) as int);
    } else {
        assert(p + d - 1 == (q + 1) * d + (m - 1)) by (nonlinear_arith)
            requires
                p == d * q + m,
        ;
        lemma_fundamental_div_mod_converse(
            (p + d - 1) as int,
            d as int,
            (q + 1) as int,
            (m - 1) as int,
        );
    }
}

/// Rounding up a product of zero gives zero.
pub proof fn lemma_mul_div_up_of_zero(b: nat, d: nat)
    requires
        d > 0,
    ensures
        mul_div_up_spec(0, b, d) == Some(0nat),
        mul_div_up_spec(b, 0, d) == Some(0nat),
{
    assert(0 * b == 0) by (nonlinear_arith);
    assert(b * 0 == 0) by (nonlinear_arith);
    lemma_ceiling(0, d);
    assert(0nat / d == 0 && 0nat % d == 0) by {
        lemma_fundamental_div_mod_converse(0, d as int, 0, 0);
    }
}

/// The floor is never above the ceiling, and the two differ by at most one.
pub proof fn lemma_floor_below_ceiling(a: nat, b: nat, d: nat)
    requires
        d > 0,
    ensures
        (a * b) / d <= (a * b + d - 1) / (d as int) <= (a * b) / d + 1,
{
    lemma_ceiling(a * b, d);
}

/// `⌊a·b / denom⌋`, computed through the full 512-bit product.
///
/// Fails with `Math` when `denom` is zero and when the quotient does not fit
/// in 256 bits; succeeds otherwise.
pub fn mul_div_down(a: U256, b: U256, denom: U256) -> (r: Result<U256, CoreError>)
    ensures
        match r {
            Ok(q) => mul_div_down_spec(a@, b@, denom@) == Some(q@),
            Err(e) => e is Math && mul_div_down_spec(a@, b@, denom@) is None,
        },
{
    if denom.is_zero() {
        return Err(CoreError::Math("division by zero"));
    }
    let (high, low) = mul_wide(a, b);
    let (quotient, _rest) = div_wide(high, low, denom);
    match quotient {
        Some(q) => Ok(q),
        None => Err(CoreError::Math("mul_div overflow")),
    }
}

/// `⌈a·b / denom⌉`, computed through the full 512-bit product; 0 when the
/// product is 0.
///
/// Fails with `Math` when `denom` is zero and when the quotient does not fit
/// in 256 bits; succeeds otherwise.
pub fn mul_div_up(a: U256, b: U256, denom: U256) -> (r: Result<U256, CoreError>)
    ensures
        match r {
            Ok(q) => mul_div_up_spec(a@, b@, denom@) == Some(q@),
            Err(e) => e is Math && mul_div_up_spec(a@, b@, denom@) is None,
        },
{
    if denom.is_zero() {
        return Err(CoreError::Math("division by zero"));
    }
    let (high, low) = mul_wide(a, b);
    let (quotient, rest) = div_wide(high, low, denom);
    proof {
        lemma_ceiling(a@ * b@, denom@);
    }
    match quotient {
        Some(q) => {
            if rest.is_zero() {
                Ok(q)
            } else {
                match q.checked_add(&U256::one()) {
                    Some(up) => Ok(up),
                    None => Err(CoreError::Math("mul_div overflow")),
                }
            }
        },
        None => Err(CoreError::Math("mul_div overflow")),
    }
}

} // verus!
