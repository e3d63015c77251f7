use crate::bytes::append;
use crate::bytes::array20;
use crate::bytes::array32;
use crate::bytes::be_bytes;
use crate::bytes::be_value;
use crate::bytes::i32_bits;
use crate::bytes::i32_of_bits;
use crate::bytes::lemma_be_value_bound;
use crate::bytes::lemma_pow256_values;
use crate::bytes::read_be;
use crate::bytes::write_be;
use crate::errors::CoreError;
use crate::wide::U256;
use vstd::prelude::*;
use vstd::slice::slice_subrange;
use vstd::slice::slice_to_vec;

verus! {

/// Reads big-endian fields from the front of a byte string, one after another.
pub struct Reader<'a> {
    bytes: &'a [u8],
    offset: usize,
}

/// Collects big-endian fields into a byte string, one after another.
pub struct Writer {
    bytes: Vec<u8>,
}

/// The bytes of a length-prefixed byte string: a big-endian `u32` count,
/// then the bytes themselves.
pub open spec fn length_prefixed(value: Seq<u8>) -> Seq<u8> {
    be_bytes(value.len(), 4) + value
}

impl<'a> Reader<'a> {
    #[verifier::type_invariant]
    spec fn within(self) -> bool {
        self.offset <= self.bytes@.len()
    }

    /// The bytes that have not been read yet.
    pub closed spec fn rest(&self) -> Seq<u8> {
        self.bytes@.skip(self.offset as int)
    }

    pub fn new(bytes: &'a [u8]) -> (r: Self)
        ensures
            r.rest() == bytes@,
    {
        Self { bytes, offset: 0 }
    }

    /// How many bytes are left to read.
    pub fn remaining(&self) -> (n: usize)
        ensures
            n == self.rest().len(),
    {
        proof {
            use_type_invariant(self);
        }
        self.bytes.len() - self.offset
    }

    /// Takes the next `len` bytes, or fails and takes nothing when fewer are left.
    pub fn read_exact(&mut self, len: usize) -> (r: Result<&'a [u8], CoreError>)
        ensures
            match r {
                Ok(out) => len <= old(self).rest().len() && out@ == old(self).rest().take(
                    len as int,
                ) && final(self).rest() == old(self).rest().skip(len as int),
                Err(e) => e is Decode && len > old(self).rest().len() && final(self).rest() == old(self).rest(),
            },
    {
        proof {
            use_type_invariant(&*self);
        }
        if len > self.bytes.len() - self.offset {
            return Err(CoreError::Decode("unexpected EOF"));
        }
        let start = self.offset;
        let out = slice_subrange(self.bytes, start, start + len);
        self.offset = start + len;
        proof {
            assert(out@ =~= old(self).rest().take(len as int));
            assert(self.bytes@.skip(self.offset as int) =~= old(self).rest().skip(len as int));
        }
        Ok(out)
    }

    pub fn read_u8(&mut self) -> (r: Result<u8, CoreError>)
        ensures
            match r {
                Ok(v) => old(self).rest().len() >= 1 && v == old(self).rest()[0] && final(self).rest() == old(self).rest().skip(1),
                Err(e) => e is Decode && old(self).rest().len() < 1 && final(self).rest() == old(self).rest(),
            },
    {
        let bytes = self.read_exact(1)?;
        Ok(bytes[0])
    }

    pub fn read_u32(&mut self) -> (r: Result<u32, CoreError>)
        ensures
            match r {
                Ok(v) => old(self).rest().len() >= 4 && v == be_value(old(self).rest().take(4))
                    && final(self).rest() == old(self).rest().skip(4),
                Err(e) => e is Decode && old(self).rest().len() < 4 && final(self).rest() == old(self).rest(),
            },
    {
        let bytes = self.read_exact(4)?;
        proof {
            lemma_be_value_bound(bytes@);
            lemma_pow256_values();
        }
        Ok(read_be(bytes) as u32)
    }

    pub fn read_u64(&mut self) -> (r: Result<u64, CoreError>)
        ensures
            match r {
                Ok(v) => old(self).rest().len() >= 8 && v == be_value(old(self).rest().take(8))
                    && final(self).rest() == old(self).rest().skip(8),
                Err(e) => e is Decode && old(self).rest().len() < 8 && final(self).rest() == old(self).rest(),
            },
    {
        let bytes = self.read_exact(8)?;
        proof {
            lemma_be_value_bound(bytes@);
            lemma_pow256_values();
        }
        Ok(read_be(bytes) as u64)
    }

    /// Reads four bytes as a signed number in two's complement.
    pub fn read_i32(&mut self) -> (r: Result<i32, CoreError>)
        ensures
            match r {
                Ok(v) => old(self).rest().len() >= 4 && v == i32_of_bits(
                    be_value(old(self).rest().take(4)),
                ) && final(self).rest() == old(self).rest().skip(4),
                Err(e) => e is Decode && old(self).rest().len() < 4 && final(self).rest() == old(self).rest(),
            },
    {
        let bits = self.read_u32()?;
        Ok(signed_of_bits(bits))
    }

    pub fn read_b32(&mut self) -> (r: Result<[u8; 32], CoreError>)
        ensures
            match r {
                Ok(v) => old(self).rest().len() >= 32 && v@ == old(self).rest().take(32) && final(self).rest() == old(self).rest().skip(32),
                Err(e) => e is Decode && old(self).rest().len() < 32 && final(self).rest() == old(self).rest(),
            },
    {
        let bytes = self.read_exact(32)?;
        Ok(array32(bytes))
    }

    pub fn read_addr(&mut self) -> (r: Result<[u8; 20], CoreError>)
        ensures
            match r {
                Ok(v) => old(self).rest().len() >= 20 && v@ == old(self).rest().take(20) && final(self).rest() == old(self).rest().skip(20),
                Err(e) => e is Decode && old(self).rest().len() < 20 && final(self).rest() == old(self).rest(),
            },
    {
        let bytes = self.read_exact(20)?;
        Ok(array20(bytes))
    }

    pub fn read_u256(&mut self) -> (r: Result<U256, CoreError>)
        ensures
            match r {
                Ok(v) => old(self).rest().len() >= 32 && v@ == be_value(old(self).rest().take(32))
                    && final(self).rest() == old(self).rest().skip(32),
                Err(e) => e is Decode && old(self).rest().len() < 32 && final(self).rest() == old(self).rest(),
            },
    {
        let bytes = self.read_exact(32)?;
        Ok(U256::from_be_bytes(bytes))
    }

    /// Reads a `u32` count and then that many bytes. When the count is read
    /// but the bytes are missing, the count stays consumed.
    pub fn read_bytes(&mut self) -> (r: Result<Vec<u8>, CoreError>)
        ensures
            match r {
                Ok(v) => old(self).rest() == length_prefixed(v@) + final(self).rest() && v@.len()
                    <= u32::MAX,
                Err(e) => e is Decode && (old(self).rest().len() < 4 || old(self).rest().len() - 4
                    < be_value(old(self).rest().take(4))) && final(self).rest() == (if old(self).rest().len() < 4 {
                    old(self).rest()
                } else {
                    old(self).rest().skip(4)
                }),
            },
            r is Ok <==> old(self).rest().len() >= 4 && old(self).rest().len() - 4 >= be_value(
                old(self).rest().take(4),
            ),
    {
        let count = self.read_u32()?;
        let bytes = self.read_exact(count as usize)?;
        proof {
            let input = old(self).rest();
            crate::bytes::lemma_be_bytes_of_value(input.take(4));
            assert(input =~= input.take(4) + input.skip(4).take(count as int) + input.skip(4).skip(
                count as int,
            ));
        }
        Ok(slice_to_vec(bytes))
    }

    /// Succeeds exactly when every byte has been read.
    pub fn expect_finished(&self) -> (r: Result<(), CoreError>)
        ensures
            r is Ok <==> self.rest().len() == 0,
            r matches Err(e) ==> e is Decode,
    {
        proof {
            use_type_invariant(self);
        }
        if self.offset != self.bytes.len() {
            return Err(CoreError::Decode("trailing bytes"));
        }
        Ok(())
    }
}

/// The signed number whose two's complement bits are `bits`.
pub fn signed_of_bits(bits: u32) -> (v: i32)
    ensures
        v == i32_of_bits(bits as nat),
{
    if bits < 0x8000_0000 {
        bits as i32
    } else {
        ((bits as i64) - 0x1_0000_0000i64) as i32
    }
}

/// The two's complement bits of a signed number.
pub fn bits_of_signed(value: i32) -> (bits: u32)
    ensures
        bits == i32_bits(value),
{
    if value >= 0 {
        value as u32
    } else {
        ((value as i64) + 0x1_0000_0000i64) as u32
    }
}

impl View for Writer {
    type V = Seq<u8>;

    /// The bytes written so far.
    closed spec fn view(&self) -> Seq<u8> {
        self.bytes@
    }
}

impl Writer {
    pub fn new() -> (w: Self)
        ensures
            w@ == Seq::<u8>::empty(),
    {
        Self { bytes: Vec::new() }
    }

    pub fn into_bytes(self) -> (bytes: Vec<u8>)
        ensures
            bytes@ == self@,
    {
        self.bytes
    }

    pub fn write_u8(&mut self, value: u8)
        ensures
            final(self)@ == old(self)@.push(value),
    {
        self.bytes.push(value);
    }

    pub fn write_u32(&mut self, value: u32)
        ensures
            final(self)@ == old(self)@ + be_bytes(value as nat, 4),
    {
        write_be(&mut self.bytes, value as u128, 4);
    }

    pub fn write_u64(&mut self, value: u64)
        ensures
            final(self)@ == old(self)@ + be_bytes(value as nat, 8),
    {
        write_be(&mut self.bytes, value as u128, 8);
    }

    /// Writes a signed number as four bytes in two's complement.
    pub fn write_i32(&mut self, value: i32)
        ensures
            final(self)@ == old(self)@ + be_bytes(i32_bits(value), 4),
    {
        write_be(&mut self.bytes, bits_of_signed(value) as u128, 4);
    }

    pub fn write_b32(&mut self, value: &[u8; 32])
        ensures
            final(self)@ == old(self)@ + value@,
    {
        append(&mut self.bytes, value.as_slice());
    }

    pub fn write_addr(&mut self, value: &[u8; 20])
        ensures
            final(self)@ == old(self)@ + value@,
    {
        append(&mut self.bytes, value.as_slice());
    }

    pub fn write_u256(&mut self, value: &U256)
        ensures
            final(self)@ == old(self)@ + be_bytes(value@, 32),
    {
        let bytes = value.to_be_bytes();
        append(&mut self.bytes, bytes.as_slice());
    }

    /// Writes the length of `value` as a `u32`, then `value`.
    pub fn write_bytes(&mut self, value: &[u8])
        requires
            value@.len() <= u32::MAX,
        ensures
            final(self)@ == old(self)@ + length_prefixed(value@),
    {
        write_be(&mut self.bytes, value.len() as u128, 4);
        append(&mut self.bytes, value);
        proof {
            assert(self@ =~= old(self)@ + length_prefixed(value@));
        }
    }

    /// Writes `value` as it is, without a length.
    pub fn write_raw(&mut self, value: &[u8])
        ensures
            final(self)@ == old(self)@ + value@,
    {
        append(&mut self.bytes, value);
    }
}

} // verus!
