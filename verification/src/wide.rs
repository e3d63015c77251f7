use crate::bytes::be_bytes;
use crate::bytes::be_value;
use crate::bytes::lemma_be_bytes_split;
use crate::bytes::lemma_be_value_concat;
use crate::bytes::lemma_pow256_values;
use crate::bytes::pow256;
use crate::bytes::read_be;
use crate::bytes::write_be;
use vstd::arithmetic::div_mod::lemma_fundamental_div_mod_converse;
use vstd::arithmetic::power2::lemma2_to64;
use vstd::arithmetic::power2::lemma_pow2_adds;
use vstd::arithmetic::power2::lemma_pow2_strictly_increases;
use vstd::arithmetic::power2::lemma_pow2_unfold;
use vstd::arithmetic::power2::pow2;
use vstd::prelude::*;

verus! {

/// 2 to the power 128: the weight of the high half of a [`U256`].
pub open spec fn two_128() -> nat {
    0x1_0000_0000_0000_0000_0000_0000_0000_0000nat
}

/// 2 to the power 256: one more than the largest [`U256`].
pub open spec fn two_256() -> nat {
    0x1_0000_0000_0000_0000_0000_0000_0000_0000_0000_0000_0000_0000_0000_0000_0000_0000nat
}

/// 2 to the power 512: one more than the largest product of two [`U256`].
pub open spec fn two_512() -> nat {
    two_256() * two_256()
}

/// 1 for `true`, 0 for `false`.
pub open spec fn bit(b: bool) -> nat {
    if b {
        1
    } else {
        0
    }
}

/// An unsigned 256-bit integer, held as two 128-bit halves.
#[derive(Clone, Copy, Debug, PartialEq, Eq, PartialOrd, Ord, Hash, Structural)]
pub struct U256 {
    pub hi: u128,
    pub lo: u128,
}

impl View for U256 {
    type V = nat;

    /// The number that the two halves stand for.
    open spec fn view(&self) -> nat {
        self.hi as nat * two_128() + self.lo as nat
    }
}

/// Two values with the same number are the same value.
pub proof fn lemma_view_injective(a: U256, b: U256)
    requires
        a@ == b@,
    ensures
        a == b,
{
}

proof fn lemma_powers()
    ensures
        pow2(0) == 1,
        pow2(256) == two_256(),
        pow2(512) == two_512(),
        two_256() * two_256() == two_512(),
        two_128() * two_128() == two_256(),
{
    lemma2_to64();
    lemma_pow2_adds(64, 64);
    lemma_pow2_adds(128, 128);
    lemma_pow2_adds(256, 256);
    let q64 = pow2(64);
    let q128 = pow2(128);
    let q256 = pow2(256);
    let q512 = pow2(512);
    assert(q128 == two_128()) by (nonlinear_arith)
        requires
            q128 == q64 * q64,
            q64 == 0x1_0000_0000_0000_0000,
    ;
    assert(q256 == two_256()) by (nonlinear_arith)
        requires
            q256 == q128 * q128,
            q128 == two_128(),
    ;
    assert(q512 == two_512());
}

proof fn lemma_shift_step(b: nat, p: nat, done: nat, rest: nat, top: nat, rest2: nat, m: nat)
    by (nonlinear_arith)
    requires
        b * p == done * m + rest,
        2 * rest == top * m + rest2,
    ensures
        b * (2 * p) == (2 * done + top) * m + rest2,
{
}

proof fn lemma_scale_bound(b: nat, p: nat, done: nat, rest: nat, m: nat)
    by (nonlinear_arith)
    requires
        b * p == done * m + rest,
        p <= m,
        m > 0,
    ensures
        done <= b,
{
    assert(b * p <= b * m);
    assert(done * m <= b * m);
}

proof fn lemma_scale_exact(b: nat, done: nat, rest: nat, m: nat)
    by (nonlinear_arith)
    requires
        b * m == done * m + rest,
        rest < m,
        m > 0,
    ensures
        done == b,
        rest == 0,
{
    assert((b - done) * m == rest);
}

proof fn lemma_product_fits(a: nat, d: nat, m: nat)
    by (nonlinear_arith)
    requires
        a < m,
        d < m,
    ensures
        a * d < m * m,
{
    assert(a * d <= (m - 1) * (m - 1));
}

proof fn lemma_product_step(a: nat, done: nat, top: nat)
    by (nonlinear_arith)
    ensures
        a * (2 * done + top) == 2 * (a * done) + top * a,
{
}

proof fn lemma_quotient_step(quot: nat, d: nat, r: nat, top: nat, take: nat, r3: nat)
    by (nonlinear_arith)
    requires
        2 * r + top == take * d + r3,
    ensures
        2 * (quot * d + r) + top == (2 * quot + take) * d + r3,
{
}

/// `x + y + carry`, as the low 128 bits and the carry out.
fn add_limb(x: u128, y: u128, carry: bool) -> (r: (u128, bool))
    ensures
        x + y + bit(carry) == bit(r.1) * two_128() + r.0,
{
    let room: u128 = u128::MAX - x;
    if y > room {
        let s: u128 = y - room - 1;
        if carry {
            (s + 1, true)
        } else {
            (s, true)
        }
    } else {
        let s: u128 = x + y;
        if carry {
            if s == u128::MAX {
                (0, true)
            } else {
                (s + 1, false)
            }
        } else {
            (s, false)
        }
    }
}

/// `x - y - borrow`, as the low 128 bits and the borrow out.
fn sub_limb(x: u128, y: u128, borrow: bool) -> (r: (u128, bool))
    ensures
        x - y - bit(borrow) == r.0 - bit(r.1) * two_128(),
{
    if x >= y {
        let d: u128 = x - y;
        if borrow {
            if d == 0 {
                (u128::MAX, true)
            } else {
                (d - 1, false)
            }
        } else {
            (d, false)
        }
    } else {
        let gap: u128 = y - x;
        let d: u128 = u128::MAX - gap;
        if borrow {
            (d, true)
        } else {
            (d + 1, true)
        }
    }
}

/// `a + b + carry`, as the low 256 bits and the carry out.
fn add_carry(a: U256, b: U256, carry: bool) -> (r: (U256, bool))
    ensures
        a@ + b@ + bit(carry) == bit(r.1) * two_256() + r.0@,
{
    let (lo, c) = add_limb(a.lo, b.lo, carry);
    let (hi, c2) = add_limb(a.hi, b.hi, c);
    (U256 { hi, lo }, c2)
}

/// `a - b`, as the low 256 bits and the borrow out.
fn sub_borrow(a: U256, b: U256) -> (r: (U256, bool))
    ensures
        a@ - b@ == r.0@ - bit(r.1) * two_256(),
{
    let (lo, c) = sub_limb(a.lo, b.lo, false);
    let (hi, c2) = sub_limb(a.hi, b.hi, c);
    (U256 { hi, lo }, c2)
}

/// `2 * a + carry`, as the low 256 bits and the bit shifted out.
fn double(a: U256, carry: bool) -> (r: (U256, bool))
    ensures
        2 * a@ + bit(carry) == bit(r.1) * two_256() + r.0@,
{
    add_carry(a, a, carry)
}

/// The full 512-bit product of two 256-bit numbers, high half first.
pub fn mul_wide(a: U256, b: U256) -> (r: (U256, U256))
    ensures
        r.0@ * two_256() + r.1@ == a@ * b@,
{
    let mut acc_hi = U256 { hi: 0, lo: 0 };
    let mut acc_lo = U256 { hi: 0, lo: 0 };
    let mut rest = b;
    let ghost mut done: nat = 0;
    let mut k: u32 = 0;
    proof {
        lemma_powers();
        assert(b@ * pow2(0) == b@) by (nonlinear_arith)
            requires
                pow2(0) == 1,
        ;
        assert(a@ * 0 == 0) by (nonlinear_arith);
    }
    while k < 256
        invariant
            k <= 256,
            b@ * pow2(k as nat) == done * two_256() + rest@,
            acc_hi@ * two_256() + acc_lo@ == a@ * done,
        decreases 256 - k,
    {
        let (rest2, top) = double(rest, false);
        let (lo2, c1) = double(acc_lo, false);
        let (hi2, c2) = double(acc_hi, c1);
        let (lo3, c3) = if top {
            add_carry(lo2, a, false)
        } else {
            (lo2, false)
        };
        let (hi3, c4) = add_carry(hi2, U256 { hi: 0, lo: 0 }, c3);
        proof {
            let done2 = 2 * done + bit(top);
            lemma_powers();
            lemma_pow2_unfold((k + 1) as nat);
            lemma_shift_step(b@, pow2(k as nat), done, rest@, bit(top), rest2@, two_256());
            assert(b@ * pow2((k + 1) as nat) == done2 * two_256() + rest2@);
            if k + 1 < 256 {
                lemma_pow2_strictly_increases((k + 1) as nat, 256);
            }
            lemma_scale_bound(b@, pow2((k + 1) as nat), done2, rest2@, two_256());
            lemma_product_fits(a@, done2, two_256());
            lemma_product_step(a@, done, bit(top));
            assert(hi3@ * two_256() + lo3@ + (bit(c2) + bit(c4)) * two_512() == a@ * done2);
            assert(!c2 && !c4);
            done = done2;
        }
        rest = rest2;
        acc_lo = lo3;
        acc_hi = hi3;
        k += 1;
    }
    proof {
        lemma_powers();
        lemma_scale_exact(b@, done, rest@, two_256());
    }
    (acc_hi, acc_lo)
}

/// Divides the 512-bit number `high * 2^256 + low` by `divisor`. The first
/// part of the result is the quotient, or `None` when it needs more than
/// 256 bits; the second is the remainder.
pub fn div_wide(high: U256, low: U256, divisor: U256) -> (r: (Option<U256>, U256))
    requires
        divisor@ > 0,
    ensures
        r.1@ == (high@ * two_256() + low@) % divisor@,
        r.0 matches Some(q) ==> q@ == (high@ * two_256() + low@) / divisor@,
        r.0 is None ==> (high@ * two_256() + low@) / divisor@ >= two_256(),
{
    let ghost n: nat = high@ * two_256() + low@;
    let mut n_hi = high;
    let mut n_lo = low;
    let mut rem = U256 { hi: 0, lo: 0 };
    let mut quo = U256 { hi: 0, lo: 0 };
    let mut overflow = false;
    let ghost mut taken: nat = 0;
    let ghost mut quot: nat = 0;
    let mut k: u32 = 0;
    proof {
        lemma_powers();
        assert(n * pow2(0) == n) by (nonlinear_arith)
            requires
                pow2(0) == 1,
        ;
        assert(0 * divisor@ == 0) by (nonlinear_arith);
    }
    while k < 512
        invariant
            k <= 512,
            divisor@ > 0,
            n * pow2(k as nat) == taken * two_512() + (n_hi@ * two_256() + n_lo@),
            taken == quot * divisor@ + rem@,
            rem@ < divisor@,
            !overflow ==> quo@ == quot,
            overflow ==> quot >= two_256(),
        decreases 512 - k,
    {
        let (n_lo2, c1) = double(n_lo, false);
        let (n_hi2, top) = double(n_hi, c1);
        let (rem2, rc) = double(rem, top);
        let take = rc || !rem2.lt(&divisor);
        let rem3 = if take {
            let (d, _borrow) = sub_borrow(rem2, divisor);
            d
        } else {
            rem2
        };
        let (quo2, qc) = double(quo, take);
        proof {
            lemma_powers();
            lemma_pow2_unfold((k + 1) as nat);
            lemma_shift_step(
                n,
                pow2(k as nat),
                taken,
                n_hi@ * two_256() + n_lo@,
                bit(top),
                n_hi2@ * two_256() + n_lo2@,
                two_512(),
            );
            assert(2 * rem@ + bit(top) == bit(take) * divisor@ + rem3@) by {
                assert(bit(take) * divisor@ == if take {
                    divisor@
                } else {
                    0
                }) by (nonlinear_arith)
                    requires
                        bit(take) == 0 || bit(take) == 1,
                ;
            }
            lemma_quotient_step(quot, divisor@, rem@, bit(top), bit(take), rem3@);
            quot = 2 * quot + bit(take);
            taken = 2 * taken + bit(top);
        }
        n_lo = n_lo2;
        n_hi = n_hi2;
        rem = rem3;
        quo = quo2;
        overflow = overflow || qc;
        k += 1;
    }
    proof {
        lemma_powers();
        lemma_scale_exact(n, taken, n_hi@ * two_256() + n_lo@, two_512());
        lemma_fundamental_div_mod_converse(n as int, divisor@ as int, quot as int, rem@ as int);
    }
    if overflow {
        (None, rem)
    } else {
        (Some(quo), rem)
    }
}

impl U256 {
    /// The number 0.
    pub fn zero() -> (r: Self)
        ensures
            r@ == 0,
    {
        U256 { hi: 0, lo: 0 }
    }

    /// The number 1.
    pub fn one() -> (r: Self)
        ensures
            r@ == 1,
    {
        U256 { hi: 0, lo: 1 }
    }

    /// The largest value, `2^256 - 1`.
    pub fn max_value() -> (r: Self)
        ensures
            r@ == two_256() - 1,
    {
        U256 { hi: u128::MAX, lo: u128::MAX }
    }

    /// The value of a 64-bit number.
    pub fn from_u64(value: u64) -> (r: Self)
        ensures
            r@ == value,
    {
        U256 { hi: 0, lo: value as u128 }
    }

    /// The value of a 128-bit number.
    pub fn from_u128(value: u128) -> (r: Self)
        ensures
            r@ == value,
    {
        U256 { hi: 0, lo: value }
    }

    pub fn is_zero(&self) -> (r: bool)
        ensures
            r == (self@ == 0),
    {
        self.hi == 0 && self.lo == 0
    }

    /// `self < other`, as numbers.
    pub fn lt(&self, other: &U256) -> (r: bool)
        ensures
            r == (self@ < other@),
    {
        self.hi < other.hi || (self.hi == other.hi && self.lo < other.lo)
    }

    /// `self <= other`, as numbers.
    pub fn le(&self, other: &U256) -> (r: bool)
        ensures
            r == (self@ <= other@),
    {
        self.hi < other.hi || (self.hi == other.hi && self.lo <= other.lo)
    }

    /// `self > other`, as numbers.
    pub fn gt(&self, other: &U256) -> (r: bool)
        ensures
            r == (self@ > other@),
    {
        other.lt(self)
    }

    /// `self >= other`, as numbers.
    pub fn ge(&self, other: &U256) -> (r: bool)
        ensures
            r == (self@ >= other@),
    {
        other.le(self)
    }

    /// The sum, or `None` when it needs more than 256 bits.
    pub fn checked_add(&self, other: &U256) -> (r: Option<U256>)
        ensures
            self@ + other@ < two_256() ==> (r matches Some(s) && s@ == self@ + other@),
            self@ + other@ >= two_256() ==> r is None,
    {
        let (sum, carry) = add_carry(*self, *other, false);
        if carry {
            None
        } else {
            Some(sum)
        }
    }

    /// The difference, or `None` when `other` is the larger one.
    pub fn checked_sub(&self, other: &U256) -> (r: Option<U256>)
        ensures
            self@ >= other@ ==> (r matches Some(d) && d@ == self@ - other@),
            self@ < other@ ==> r is None,
    {
        let (diff, borrow) = sub_borrow(*self, *other);
        if borrow {
            None
        } else {
            Some(diff)
        }
    }

    /// The product, or `None` when it needs more than 256 bits.
    pub fn checked_mul(&self, other: &U256) -> (r: Option<U256>)
        ensures
            self@ * other@ < two_256() ==> (r matches Some(p) && p@ == self@ * other@),
            self@ * other@ >= two_256() ==> r is None,
    {
        let (high, low) = mul_wide(*self, *other);
        if high.is_zero() {
            Some(low)
        } else {
            None
        }
    }

    /// The remainder of the division by `divisor`, or `None` when `divisor` is 0.
    pub fn checked_rem(&self, divisor: &U256) -> (r: Option<U256>)
        ensures
            divisor@ > 0 ==> (r matches Some(m) && m@ == self@ % divisor@),
            divisor@ == 0 ==> r is None,
    {
        if divisor.is_zero() {
            return None;
        }
        let (_q, m) = div_wide(U256 { hi: 0, lo: 0 }, *self, *divisor);
        Some(m)
    }

    /// Reads at most 32 bytes as a big-endian number.
    pub fn from_be_bytes(bytes: &[u8]) -> (r: Self)
        requires
            bytes@.len() <= 32,
        ensures
            r@ == be_value(bytes@),
    {
        let len = bytes.len();
        if len <= 16 {
            U256 { hi: 0, lo: read_be(bytes) }
        } else {
            let cut: usize = len - 16;
            let head = &bytes[0..cut];
            let tail = &bytes[cut..len];
            let hi = read_be(head);
            let lo = read_be(tail);
            proof {
                lemma_pow256_values();
                lemma_be_value_concat(head@, tail@);
                assert(head@ + tail@ =~= bytes@);
                assert(tail@.len() == 16);
                assert(hi as nat * two_128() == be_value(head@) * pow256(16));
            }
            U256 { hi, lo }
        }
    }

    /// The 32 bytes of the number, most significant first.
    pub fn to_be_bytes(&self) -> (r: [u8; 32])
        ensures
            r@ == be_bytes(self@, 32),
    {
        let mut v: Vec<u8> = Vec::new();
        write_be(&mut v, self.hi, 16);
        write_be(&mut v, self.lo, 16);
        proof {
            lemma_pow256_values();
            lemma_be_bytes_split(self@, 16, 16);
            lemma_fundamental_div_mod_converse(
                self@ as int,
                pow256(16) as int,
                self.hi as int,
                self.lo as int,
            );
            assert(v@ =~= be_bytes(self@, 32));
            crate::bytes::lemma_be_bytes_len(self@, 32);
        }
        crate::bytes::array32(v.as_slice())
    }
}

impl From<u64> for U256 {
    fn from(value: u64) -> (r: Self) {
        U256 { hi: 0, lo: value as u128 }
    }
}

impl vstd::std_specs::convert::FromSpecImpl<u64> for U256 {
    open spec fn obeys_from_spec() -> bool {
        true
    }

    open spec fn from_spec(value: u64) -> Self {
        U256 { hi: 0, lo: value as u128 }
    }
}

impl From<u128> for U256 {
    fn from(value: u128) -> (r: Self) {
        U256 { hi: 0, lo: value }
    }
}

impl vstd::std_specs::convert::FromSpecImpl<u128> for U256 {
    open spec fn obeys_from_spec() -> bool {
        true
    }

    open spec fn from_spec(value: u128) -> Self {
        U256 { hi: 0, lo: value }
    }
}

} // verus!
