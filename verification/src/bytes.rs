use vstd::arithmetic::div_mod::lemma_div_denominator;
use vstd::arithmetic::div_mod::lemma_fundamental_div_mod;
use vstd::arithmetic::mul::lemma_mul_is_associative;
use vstd::prelude::*;

verus! {

/// 256 to the power `n`: the number of values that `n` bytes can hold.
pub open spec fn pow256(n: nat) -> nat
    decreases n,
{
    if n == 0 {
        1
    } else {
        256 * pow256((n - 1) as nat)
    }
}

/// The number that `bytes` spells when read big-endian: the first byte is
/// the most significant one.
pub open spec fn be_value(bytes: Seq<u8>) -> nat
    decreases bytes.len(),
{
    if bytes.len() == 0 {
        0
    } else {
        be_value(bytes.drop_last()) * 256 + bytes.last() as nat
    }
}

/// The `width` low-order bytes of `value`, most significant first.
pub open spec fn be_bytes(value: nat, width: nat) -> Seq<u8>
    decreases width,
{
    if width == 0 {
        Seq::empty()
    } else {
        be_bytes(value / 256, (width - 1) as nat).push((value % 256) as u8)
    }
}

/// The bit pattern of a signed 32-bit number, read as an unsigned one.
pub open spec fn i32_bits(x: i32) -> nat {
    if x >= 0 {
        x as nat
    } else {
        (x + 0x1_0000_0000) as nat
    }
}

/// The signed 32-bit number with the bit pattern `bits`.
pub open spec fn i32_of_bits(bits: nat) -> int {
    if bits < 0x8000_0000 {
        bits as int
    } else {
        bits - 0x1_0000_0000
    }
}

pub proof fn lemma_pow256_positive(n: nat)
    ensures
        pow256(n) > 0,
    decreases n,
{
    if n > 0 {
        lemma_pow256_positive((n - 1) as nat);
    }
}

pub proof fn lemma_pow256_add(a: nat, b: nat)
    ensures
        pow256(a + b) == pow256(a) * pow256(b),
    decreases a,
{
    if a == 0 {
        assert(pow256(0) == 1);
        assert(1 * pow256(b) == pow256(b));
    } else {
        lemma_pow256_add((a - 1) as nat, b);
        assert(pow256(a + b) == 256 * pow256((a - 1 + b) as nat));
        lemma_mul_is_associative(256, pow256((a - 1) as nat) as int, pow256(b) as int);
    }
}

pub proof fn lemma_pow256_values()
    ensures
        pow256(1) == 0x100,
        pow256(2) == 0x1_0000,
        pow256(4) == 0x1_0000_0000,
        pow256(8) == 0x1_0000_0000_0000_0000,
        pow256(16) == 0x1_0000_0000_0000_0000_0000_0000_0000_0000,
        pow256(32)
            == 0x1_0000_0000_0000_0000_0000_0000_0000_0000_0000_0000_0000_0000_0000_0000_0000_0000,
{
    assert(pow256(1) == 0x100) by {
        reveal_with_fuel(pow256, 2);
    }
    lemma_pow256_add(1, 1);
    lemma_pow256_add(2, 2);
    lemma_pow256_add(4, 4);
    lemma_pow256_add(8, 8);
    lemma_pow256_add(16, 16);
    let w2 = pow256(2);
    let w4 = pow256(4);
    let w8 = pow256(8);
    let w16 = pow256(16);
    let w32 = pow256(32);
    assert(w2 == 0x1_0000) by (nonlinear_arith)
        requires
            w2 == 0x100 * 0x100,
    ;
    assert(w4 == 0x1_0000_0000) by (nonlinear_arith)
        requires
            w4 == w2 * w2,
            w2 == 0x1_0000,
    ;
    assert(w8 == 0x1_0000_0000_0000_0000) by (nonlinear_arith)
        requires
            w8 == w4 * w4,
            w4 == 0x1_0000_0000,
    ;
    assert(w16 == 0x1_0000_0000_0000_0000_0000_0000_0000_0000) by (nonlinear_arith)
        requires
            w16 == w8 * w8,
            w8 == 0x1_0000_0000_0000_0000,
    ;
    assert(w32
        == 0x1_0000_0000_0000_0000_0000_0000_0000_0000_0000_0000_0000_0000_0000_0000_0000_0000)
        by (nonlinear_arith)
        requires
            w32 == w16 * w16,
            w16 == 0x1_0000_0000_0000_0000_0000_0000_0000_0000,
    ;
}

pub proof fn lemma_be_bytes_len(value: nat, width: nat)
    ensures
        be_bytes(value, width).len() == width,
    decreases width,
{
    if width > 0 {
        lemma_be_bytes_len(value / 256, (width - 1) as nat);
    }
}

pub proof fn lemma_be_value_bound(bytes: Seq<u8>)
    ensures
        be_value(bytes) < pow256(bytes.len()),
    decreases bytes.len(),
{
    if bytes.len() > 0 {
        lemma_be_value_bound(bytes.drop_last());
    }
}

/// Writing a number that fits and reading it back gives the number.
pub proof fn lemma_be_value_of_bytes(value: nat, width: nat)
    requires
        value < pow256(width),
    ensures
        be_value(be_bytes(value, width)) == value,
    decreases width,
{
    if width > 0 {
        let rest = be_bytes(value / 256, (width - 1) as nat);
        lemma_be_bytes_len(value / 256, (width - 1) as nat);
        lemma_be_value_of_bytes(value / 256, (width - 1) as nat);
        assert(be_bytes(value, width).drop_last() =~= rest);
        assert(be_bytes(value, width).last() == (value % 256) as u8);
    }
}

/// Reading bytes and writing the number back in the same width gives the bytes.
pub proof fn lemma_be_bytes_of_value(bytes: Seq<u8>)
    ensures
        be_bytes(be_value(bytes), bytes.len()) == bytes,
    decreases bytes.len(),
{
    if bytes.len() > 0 {
        let head = bytes.drop_last();
        lemma_be_bytes_of_value(head);
        let v = be_value(bytes);
        assert(v / 256 == be_value(head));
        assert(v % 256 == bytes.last() as nat);
        assert(be_bytes(v, bytes.len()) =~= bytes);
    } else {
        assert(be_bytes(be_value(bytes), 0) =~= bytes);
    }
}

/// The value of a concatenation: the first part is shifted past the second.
pub proof fn lemma_be_value_concat(a: Seq<u8>, b: Seq<u8>)
    ensures
        be_value(a + b) == be_value(a) * pow256(b.len()) + be_value(b),
    decreases b.len(),
{
    if b.len() == 0 {
        assert(a + b =~= a);
        assert(be_value(a) * 1 == be_value(a));
    } else {
        let b0 = b.drop_last();
        lemma_be_value_concat(a, b0);
        assert((a + b).drop_last() =~= a + b0);
        assert((a + b).last() == b.last());
        let x = be_value(a) as int;
        let p = pow256(b0.len()) as int;
        assert(pow256(b.len()) == 256 * pow256(b0.len()));
        assert((x * p) * 256 == x * (256 * p)) by (nonlinear_arith);
    }
}

/// Splitting a width: the high bytes spell the quotient, the low bytes the
/// remainder.
pub proof fn lemma_be_bytes_split(value: nat, high: nat, low: nat)
    ensures
        be_bytes(value, high + low) == be_bytes(value / pow256(low), high) + be_bytes(
            value % pow256(low),
            low,
        ),
    decreases low,
{
    if low == 0 {
        assert(value / 1 == value);
        assert(be_bytes(value % pow256(0), 0) =~= Seq::<u8>::empty());
        assert(be_bytes(value, high) + Seq::<u8>::empty() =~= be_bytes(value, high));
    } else {
        let p = pow256((low - 1) as nat);
        lemma_pow256_positive((low - 1) as nat);
        lemma_be_bytes_split(value / 256, high, (low - 1) as nat);
        // (value / 256) / p == value / (256 * p)
        lemma_div_denominator(value as int, 256, p as int);
        assert((value / 256) / p == value / pow256(low));
        // ((value % (256 * p)) / 256) == (value / 256) % p and the last digit agrees
        let m = value % pow256(low);
        lemma_fundamental_div_mod(value as int, pow256(low) as int);
        let q = value / pow256(low);
        assert(value == pow256(low) * q + m);
        assert(pow256(low) * q == 256 * (p * q)) by (nonlinear_arith)
            requires
                pow256(low) == 256 * p,
        ;
        assert(m % 256 == value % 256);
        assert(m / 256 == (value / 256) - p * q);
        assert((value / 256) % p == m / 256) by {
            lemma_fundamental_div_mod((value / 256) as int, p as int);
            assert(m < pow256(low));
            assert(m / 256 < p);
            vstd::arithmetic::div_mod::lemma_fundamental_div_mod_converse(
                (value / 256) as int,
                p as int,
                q as int,
                (m / 256) as int,
            );
        }
        assert(be_bytes(m, low) == be_bytes(m / 256, (low - 1) as nat).push((m % 256) as u8));
        assert(be_bytes(value, high + low) =~= be_bytes(value / pow256(low), high) + be_bytes(
            m,
            low,
        ));
    }
}

/// The byte at position `index` of a big-endian encoding.
pub proof fn lemma_be_bytes_index(value: nat, width: nat, index: int)
    requires
        0 <= index < width,
    ensures
        be_bytes(value, width).len() == width,
        be_bytes(value, width)[index] == ((value / pow256((width - 1 - index) as nat)) % 256) as u8,
    decreases width,
{
    lemma_be_bytes_len(value, width);
    lemma_be_bytes_len(value / 256, (width - 1) as nat);
    if index == width - 1 {
        assert(value / 1 == value);
    } else {
        lemma_be_bytes_index(value / 256, (width - 1) as nat, index);
        let e = (width - 2 - index) as nat;
        lemma_pow256_positive(e);
        lemma_div_denominator(value as int, 256, pow256(e) as int);
        assert(pow256((width - 1 - index) as nat) == 256 * pow256(e));
    }
}

/// Two bit patterns of signed numbers agree only for the same number.
pub proof fn lemma_i32_bits_roundtrip(x: i32)
    ensures
        i32_bits(x) < 0x1_0000_0000,
        i32_of_bits(i32_bits(x)) == x,
{
}

pub proof fn lemma_i32_of_bits_roundtrip(bits: nat)
    requires
        bits < 0x1_0000_0000,
    ensures
        i32::MIN <= i32_of_bits(bits) <= i32::MAX,
        i32_bits(i32_of_bits(bits) as i32) == bits,
{
}

/// Two concatenations that agree, with first parts of one length, agree part by part.
pub proof fn lemma_concat_injective(a1: Seq<u8>, b1: Seq<u8>, a2: Seq<u8>, b2: Seq<u8>)
    requires
        a1 + b1 == a2 + b2,
        a1.len() == a2.len() || b1.len() == b2.len(),
    ensures
        a1 == a2,
        b1 == b2,
{
    assert((a1 + b1).len() == a1.len() + b1.len());
    assert((a2 + b2).len() == a2.len() + b2.len());
    assert(a1.len() == a2.len());
    assert(a1 =~= (a1 + b1).take(a1.len() as int));
    assert(a2 =~= (a2 + b2).take(a2.len() as int));
    assert(b1 =~= (a1 + b1).skip(a1.len() as int));
    assert(b2 =~= (a2 + b2).skip(a2.len() as int));
}

/// Two numbers that fit in `width` bytes and are written alike are the same number.
pub proof fn lemma_be_bytes_injective(v1: nat, v2: nat, width: nat)
    requires
        v1 < pow256(width),
        v2 < pow256(width),
        be_bytes(v1, width) == be_bytes(v2, width),
    ensures
        v1 == v2,
{
    lemma_be_value_of_bytes(v1, width);
    lemma_be_value_of_bytes(v2, width);
}

/// The bits of two signed numbers agree only for the same number.
pub proof fn lemma_i32_bits_injective(x: i32, y: i32)
    requires
        i32_bits(x) == i32_bits(y),
    ensures
        x == y,
{
}

/// Reads up to sixteen bytes as one big-endian number.
pub fn read_be(bytes: &[u8]) -> (value: u128)
    requires
        bytes@.len() <= 16,
    ensures
        value == be_value(bytes@),
{
    let mut acc: u128 = 0;
    let mut i: usize = 0;
    proof {
        assert(bytes@.take(0) =~= Seq::<u8>::empty());
        lemma_pow256_values();
    }
    while i < bytes.len()
        invariant
            i <= bytes@.len() <= 16,
            acc == be_value(bytes@.take(i as int)),
        decreases bytes@.len() - i,
    {
        proof {
            let next = bytes@.take(i + 1);
            assert(next.drop_last() =~= bytes@.take(i as int));
            assert(next.last() == bytes@[i as int]);
            assert(be_value(next) == be_value(next.drop_last()) * 256 + next.last() as nat);
            lemma_be_value_bound(next);
            lemma_pow256_values();
            lemma_pow256_add((i + 1) as nat, (16 - (i + 1)) as nat);
            lemma_pow256_positive((16 - (i + 1)) as nat);
            assert(pow256((i + 1) as nat) <= pow256(16)) by (nonlinear_arith)
                requires
                    pow256(16) == pow256((i + 1) as nat) * pow256((16 - (i + 1)) as nat),
                    pow256((16 - (i + 1)) as nat) > 0,
            ;
        }
        acc = acc * 256 + bytes[i] as u128;
        i += 1;
    }
    proof {
        assert(bytes@.take(bytes@.len() as int) =~= bytes@);
    }
    acc
}

/// Appends the `width` low-order bytes of `value` to `out`, most significant first.
pub fn write_be(out: &mut Vec<u8>, value: u128, width: usize)
    requires
        width <= 16,
    ensures
        final(out)@ == old(out)@ + be_bytes(value as nat, width as nat),
{
    let ghost before = out@;
    let mut i: usize = 0;
    proof {
        lemma_be_bytes_len(value as nat, width as nat);
        assert(before + be_bytes(value as nat, width as nat).take(0) =~= before);
    }
    while i < width
        invariant
            i <= width <= 16,
            be_bytes(value as nat, width as nat).len() == width,
            out@ == before + be_bytes(value as nat, width as nat).take(i as int),
        decreases width - i,
    {
        let shift: usize = width - 1 - i;
        let digit = digit_at(value, shift);
        proof {
            lemma_be_bytes_index(value as nat, width as nat, i as int);
            let full = be_bytes(value as nat, width as nat);
            assert(full.take(i + 1) =~= full.take(i as int).push(full[i as int]));
        }
        out.push(digit);
        i += 1;
    }
    proof {
        let full = be_bytes(value as nat, width as nat);
        assert(full.take(width as int) =~= full);
    }
}

/// The byte of `value` that stands `shift` bytes above the lowest one.
fn digit_at(value: u128, shift: usize) -> (digit: u8)
    requires
        shift < 16,
    ensures
        digit == ((value as nat / pow256(shift as nat)) % 256) as u8,
{
    let mut v = value;
    let mut k: usize = 0;
    proof {
        assert(value as nat / 1 == value as nat);
    }
    while k < shift
        invariant
            k <= shift < 16,
            v as nat == value as nat / pow256(k as nat),
        decreases shift - k,
    {
        proof {
            lemma_pow256_positive(k as nat);
            lemma_div_denominator(value as int, pow256(k as nat) as int, 256);
            assert(pow256((k + 1) as nat) == 256 * pow256(k as nat));
            assert(pow256(k as nat) * 256 == 256 * pow256(k as nat)) by (nonlinear_arith);
        }
        v = v / 256;
        k += 1;
    }
    (v % 256) as u8
}

/// Appends every byte of `src` to `out`.
pub fn append(out: &mut Vec<u8>, src: &[u8])
    ensures
        final(out)@ == old(out)@ + src@,
{
    out.extend_from_slice(src);
}

/// Whether two byte strings hold the same bytes.
pub fn same_bytes(a: &[u8], b: &[u8]) -> (same: bool)
    ensures
        same == (a@ == b@),
{
    if a.len() != b.len() {
        return false;
    }
    let mut i: usize = 0;
    while i < a.len()
        invariant
            i <= a@.len(),
            a@.len() == b@.len(),
            forall|j: int| 0 <= j < i ==> a@[j] == b@[j],
        decreases a@.len() - i,
    {
        if a[i] != b[i] {
            return false;
        }
        i += 1;
    }
    assert(a@ =~= b@);
    true
}

/// The 32 bytes of `src` as an array.
pub fn array32(src: &[u8]) -> (out: [u8; 32])
    requires
        src@.len() == 32,
    ensures
        out@ == src@,
{
    let mut out = [0u8; 32];
    let mut i: usize = 0;
    while i < 32
        invariant
            i <= 32,
            src@.len() == 32,
            forall|j: int| 0 <= j < i ==> out@[j] == src@[j],
        decreases 32 - i,
    {
        out[i] = src[i];
        i += 1;
    }
    assert(out@ =~= src@);
    out
}

/// The 20 bytes of `src` as an array.
pub fn array20(src: &[u8]) -> (out: [u8; 20])
    requires
        src@.len() == 20,
    ensures
        out@ == src@,
{
    let mut out = [0u8; 20];
    let mut i: usize = 0;
    while i < 20
        invariant
            i <= 20,
            src@.len() == 20,
            forall|j: int| 0 <= j < i ==> out@[j] == src@[j],
        decreases 20 - i,
    {
        out[i] = src[i];
        i += 1;
    }
    assert(out@ =~= src@);
    out
}

/// The 8 bytes of `src` as an array.
pub fn array8(src: &[u8]) -> (out: [u8; 8])
    requires
        src@.len() == 8,
    ensures
        out@ == src@,
{
    let mut out = [0u8; 8];
    let mut i: usize = 0;
    while i < 8
        invariant
            i <= 8,
            src@.len() == 8,
            forall|j: int| 0 <= j < i ==> out@[j] == src@[j],
        decreases 8 - i,
    {
        out[i] = src[i];
        i += 1;
    }
    assert(out@ =~= src@);
    out
}

/// The 64 bytes of `src` as an array.
pub fn array64(src: &[u8]) -> (out: [u8; 64])
    requires
        src@.len() == 64,
    ensures
        out@ == src@,
{
    let mut out = [0u8; 64];
    let mut i: usize = 0;
    while i < 64
        invariant
            i <= 64,
            src@.len() == 64,
            forall|j: int| 0 <= j < i ==> out@[j] == src@[j],
        decreases 64 - i,
    {
        out[i] = src[i];
        i += 1;
    }
    assert(out@ =~= src@);
    out
}

/// The 65 bytes of `src` as an array.
pub fn array65(src: &[u8]) -> (out: [u8; 65])
    requires
        src@.len() == 65,
    ensures
        out@ == src@,
{
    let mut out = [0u8; 65];
    let mut i: usize = 0;
    while i < 65
        invariant
            i <= 65,
            src@.len() == 65,
            forall|j: int| 0 <= j < i ==> out@[j] == src@[j],
        decreases 65 - i,
    {
        out[i] = src[i];
        i += 1;
    }
    assert(out@ =~= src@);
    out
}

/// The 72 bytes of `src` as an array.
pub fn array72(src: &[u8]) -> (out: [u8; 72])
    requires
        src@.len() == 72,
    ensures
        out@ == src@,
{
    let mut out = [0u8; 72];
    let mut i: usize = 0;
    while i < 72
        invariant
            i <= 72,
            src@.len() == 72,
            forall|j: int| 0 <= j < i ==> out@[j] == src@[j],
        decreases 72 - i,
    {
        out[i] = src[i];
        i += 1;
    }
    assert(out@ =~= src@);
    out
}

} // verus!
