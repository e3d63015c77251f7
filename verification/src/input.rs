use crate::bytes::array65;
use crate::bytes::be_bytes;
use crate::bytes::be_value;
use crate::bytes::i32_bits;
use crate::bytes::lemma_be_bytes_injective;
use crate::bytes::lemma_be_bytes_len;
use crate::bytes::lemma_be_bytes_of_value;
use crate::bytes::lemma_be_value_bound;
use crate::bytes::lemma_concat_injective;
use crate::bytes::lemma_pow256_values;
use crate::encoding::Reader;
use crate::encoding::Writer;
use crate::encoding::length_prefixed;
use crate::errors::CoreError;
use crate::merkle::Proof;
use crate::verify::joined;
use crate::types::Side;
use crate::types::TimeInForce;
use crate::wide::lemma_view_injective;
use crate::wide::U256;
use vstd::prelude::*;

verus! {

/// The rules of a market, fixed for the whole batch.
#[derive(Clone, Copy, Debug)]
pub struct Rules {
    pub base_asset_id: [u8; 32],
    pub quote_asset_id: [u8; 32],
    pub price_scale: U256,
    pub tick_size: U256,
    pub lot_size: U256,
    pub taker_fee_bps: u32,
    pub maker_fee_bps: u32,
    pub max_orders_per_batch: u32,
    pub max_matches_per_order: u32,
    pub max_balance: U256,
}

impl Rules {
    /// The 208 bytes of the rules, field by field in their order.
    pub open spec fn encoded(self) -> Seq<u8> {
        self.base_asset_id@ + self.quote_asset_id@ + be_bytes(self.price_scale@, 32) + be_bytes(
            self.tick_size@,
            32,
        ) + be_bytes(self.lot_size@, 32) + be_bytes(self.taker_fee_bps as nat, 4) + be_bytes(
            self.maker_fee_bps as nat,
            4,
        ) + be_bytes(self.max_orders_per_batch as nat, 4) + be_bytes(
            self.max_matches_per_order as nat,
            4,
        ) + be_bytes(self.max_balance@, 32)
    }

    pub fn encode(&self) -> (out: Vec<u8>)
        ensures
            out@ == self.encoded(),
    {
        let mut w = Writer::new();
        w.write_b32(&self.base_asset_id);
        w.write_b32(&self.quote_asset_id);
        w.write_u256(&self.price_scale);
        w.write_u256(&self.tick_size);
        w.write_u256(&self.lot_size);
        w.write_u32(self.taker_fee_bps);
        w.write_u32(self.maker_fee_bps);
        w.write_u32(self.max_orders_per_batch);
        w.write_u32(self.max_matches_per_order);
        w.write_u256(&self.max_balance);
        proof {
            assert(w@ =~= self.encoded());
        }
        w.into_bytes()
    }

    /// Reads rules from the front of the reader. Succeeds exactly when at
    /// least 208 bytes are left: what was read is then the encoding of the
    /// result.
    pub fn decode(reader: &mut Reader) -> (r: Result<Self, CoreError>)
        ensures
            match r {
                Ok(rules) => old(reader).rest() == rules.encoded() + final(reader).rest(),
                Err(e) => e is Decode && old(reader).rest().len() < 208,
            },
    {
        let ghost s = reader.rest();
        let base_asset_id = reader.read_b32()?;
        let quote_asset_id = reader.read_b32()?;
        let price_scale = reader.read_u256()?;
        let tick_size = reader.read_u256()?;
        let lot_size = reader.read_u256()?;
        let taker_fee_bps = reader.read_u32()?;
        let maker_fee_bps = reader.read_u32()?;
        let max_orders_per_batch = reader.read_u32()?;
        let max_matches_per_order = reader.read_u32()?;
        let max_balance = reader.read_u256()?;
        let rules = Self {
            base_asset_id,
            quote_asset_id,
            price_scale,
            tick_size,
            lot_size,
            taker_fee_bps,
            maker_fee_bps,
            max_orders_per_batch,
            max_matches_per_order,
            max_balance,
        };
        proof {
            let s2 = s.skip(32);
            let s3 = s2.skip(32);
            let s4 = s3.skip(32);
            let s5 = s4.skip(32);
            let s6 = s5.skip(32);
            let s7 = s6.skip(4);
            let s8 = s7.skip(4);
            let s9 = s8.skip(4);
            let s10 = s9.skip(4);
            lemma_be_bytes_of_value(s3.take(32));
            lemma_be_bytes_of_value(s4.take(32));
            lemma_be_bytes_of_value(s5.take(32));
            lemma_be_bytes_of_value(s6.take(4));
            lemma_be_bytes_of_value(s7.take(4));
            lemma_be_bytes_of_value(s8.take(4));
            lemma_be_bytes_of_value(s9.take(4));
            lemma_be_bytes_of_value(s10.take(32));
            assert(s =~= s.take(32) + s2.take(32) + s3.take(32) + s4.take(32) + s5.take(32)
                + s6.take(4) + s7.take(4) + s8.take(4) + s9.take(4) + s10.take(32) + s10.skip(32));
        }
        Ok(rules)
    }
}

/// The encoding of rules is 208 bytes long, and two rules with the same
/// bytes are the same rules.
pub proof fn lemma_rules_roundtrip(a: Rules, b: Rules)
    ensures
        a.encoded().len() == 208,
        a.encoded() == b.encoded() ==> a == b,
{
    lemma_pow256_values();
    lemma_be_bytes_len(a.price_scale@, 32);
    lemma_be_bytes_len(a.tick_size@, 32);
    lemma_be_bytes_len(a.lot_size@, 32);
    lemma_be_bytes_len(a.taker_fee_bps as nat, 4);
    lemma_be_bytes_len(a.maker_fee_bps as nat, 4);
    lemma_be_bytes_len(a.max_orders_per_batch as nat, 4);
    lemma_be_bytes_len(a.max_matches_per_order as nat, 4);
    lemma_be_bytes_len(a.max_balance@, 32);
    lemma_be_bytes_len(b.price_scale@, 32);
    lemma_be_bytes_len(b.tick_size@, 32);
    lemma_be_bytes_len(b.lot_size@, 32);
    lemma_be_bytes_len(b.taker_fee_bps as nat, 4);
    lemma_be_bytes_len(b.maker_fee_bps as nat, 4);
    lemma_be_bytes_len(b.max_orders_per_batch as nat, 4);
    lemma_be_bytes_len(b.max_matches_per_order as nat, 4);
    lemma_be_bytes_len(b.max_balance@, 32);
    if a.encoded() == b.encoded() {
        let a2 = a.base_asset_id@ + a.quote_asset_id@;
        let b2 = b.base_asset_id@ + b.quote_asset_id@;
        let a3 = a2 + be_bytes(a.price_scale@, 32);
        let b3 = b2 + be_bytes(b.price_scale@, 32);
        let a4 = a3 + be_bytes(a.tick_size@, 32);
        let b4 = b3 + be_bytes(b.tick_size@, 32);
        let a5 = a4 + be_bytes(a.lot_size@, 32);
        let b5 = b4 + be_bytes(b.lot_size@, 32);
        let a6 = a5 + be_bytes(a.taker_fee_bps as nat, 4);
        let b6 = b5 + be_bytes(b.taker_fee_bps as nat, 4);
        let a7 = a6 + be_bytes(a.maker_fee_bps as nat, 4);
        let b7 = b6 + be_bytes(b.maker_fee_bps as nat, 4);
        let a8 = a7 + be_bytes(a.max_orders_per_batch as nat, 4);
        let b8 = b7 + be_bytes(b.max_orders_per_batch as nat, 4);
        let a9 = a8 + be_bytes(a.max_matches_per_order as nat, 4);
        let b9 = b8 + be_bytes(b.max_matches_per_order as nat, 4);
        lemma_concat_injective(a9, be_bytes(a.max_balance@, 32), b9, be_bytes(b.max_balance@, 32));
        lemma_concat_injective(
            a8,
            be_bytes(a.max_matches_per_order as nat, 4),
            b8,
            be_bytes(b.max_matches_per_order as nat, 4),
        );
        lemma_concat_injective(
            a7,
            be_bytes(a.max_orders_per_batch as nat, 4),
            b7,
            be_bytes(b.max_orders_per_batch as nat, 4),
        );
        lemma_concat_injective(
            a6,
            be_bytes(a.maker_fee_bps as nat, 4),
            b6,
            be_bytes(b.maker_fee_bps as nat, 4),
        );
        lemma_concat_injective(
            a5,
            be_bytes(a.taker_fee_bps as nat, 4),
            b5,
            be_bytes(b.taker_fee_bps as nat, 4),
        );
        lemma_concat_injective(a4, be_bytes(a.lot_size@, 32), b4, be_bytes(b.lot_size@, 32));
        lemma_concat_injective(a3, be_bytes(a.tick_size@, 32), b3, be_bytes(b.tick_size@, 32));
        lemma_concat_injective(a2, be_bytes(a.price_scale@, 32), b2, be_bytes(b.price_scale@, 32));
        lemma_concat_injective(
            a.base_asset_id@,
            a.quote_asset_id@,
            b.base_asset_id@,
            b.quote_asset_id@,
        );
        lemma_be_bytes_injective(a.price_scale@, b.price_scale@, 32);
        lemma_be_bytes_injective(a.tick_size@, b.tick_size@, 32);
        lemma_be_bytes_injective(a.lot_size@, b.lot_size@, 32);
        lemma_be_bytes_injective(a.max_balance@, b.max_balance@, 32);
        lemma_be_bytes_injective(a.taker_fee_bps as nat, b.taker_fee_bps as nat, 4);
        lemma_be_bytes_injective(a.maker_fee_bps as nat, b.maker_fee_bps as nat, 4);
        lemma_be_bytes_injective(a.max_orders_per_batch as nat, b.max_orders_per_batch as nat, 4);
        lemma_be_bytes_injective(
            a.max_matches_per_order as nat,
            b.max_matches_per_order as nat,
            4,
        );
        lemma_view_injective(a.price_scale, b.price_scale);
        lemma_view_injective(a.tick_size, b.tick_size);
        lemma_view_injective(a.lot_size, b.lot_size);
        lemma_view_injective(a.max_balance, b.max_balance);
        assert(a.base_asset_id =~= b.base_asset_id);
        assert(a.quote_asset_id =~= b.quote_asset_id);
    }
}

/// The public inputs that the host supplies with a batch: everything but
/// the results.
#[derive(Clone, Copy, Debug)]
pub struct PublicInputsPartial {
    pub prev_root: [u8; 32],
    pub batch_digest: [u8; 32],
    pub rules_hash: [u8; 32],
    pub domain_separator: [u8; 32],
    pub batch_seq: u64,
    pub batch_timestamp: u64,
    pub da_commitment: [u8; 32],
}

impl PublicInputsPartial {
    /// The 176 bytes of the record, field by field in their order.
    pub open spec fn encoded(self) -> Seq<u8> {
        self.prev_root@ + self.batch_digest@ + self.rules_hash@ + self.domain_separator@
            + be_bytes(self.batch_seq as nat, 8) + be_bytes(self.batch_timestamp as nat, 8)
            + self.da_commitment@
    }

    pub fn encode(&self) -> (out: Vec<u8>)
        ensures
            out@ == self.encoded(),
    {
        let mut w = Writer::new();
        w.write_b32(&self.prev_root);
        w.write_b32(&self.batch_digest);
        w.write_b32(&self.rules_hash);
        w.write_b32(&self.domain_separator);
        w.write_u64(self.batch_seq);
        w.write_u64(self.batch_timestamp);
        w.write_b32(&self.da_commitment);
        proof {
            assert(w@ =~= self.encoded());
        }
        w.into_bytes()
    }

    /// Reads the record from the front of the reader. Succeeds exactly
    /// when at least 176 bytes are left: what was read is then the
    /// encoding of the result.
    pub fn decode(reader: &mut Reader) -> (r: Result<Self, CoreError>)
        ensures
            match r {
                Ok(public) => old(reader).rest() == public.encoded() + final(reader).rest(),
                Err(e) => e is Decode && old(reader).rest().len() < 176,
            },
    {
        let ghost s = reader.rest();
        let prev_root = reader.read_b32()?;
        let batch_digest = reader.read_b32()?;
        let rules_hash = reader.read_b32()?;
        let domain_separator = reader.read_b32()?;
        let batch_seq = reader.read_u64()?;
        let batch_timestamp = reader.read_u64()?;
        let da_commitment = reader.read_b32()?;
        let public = Self {
            prev_root,
            batch_digest,
            rules_hash,
            domain_separator,
            batch_seq,
            batch_timestamp,
            da_commitment,
        };
        proof {
            let s2 = s.skip(32);
            let s3 = s2.skip(32);
            let s4 = s3.skip(32);
            let s5 = s4.skip(32);
            let s6 = s5.skip(8);
            let s7 = s6.skip(8);
            lemma_be_bytes_of_value(s5.take(8));
            lemma_be_bytes_of_value(s6.take(8));
            assert(s =~= s.take(32) + s2.take(32) + s3.take(32) + s4.take(32) + s5.take(8)
                + s6.take(8) + s7.take(32) + s7.skip(32));
        }
        Ok(public)
    }
}

/// The encoding of the record is 176 bytes long, and two records with the
/// same bytes are the same record.
pub proof fn lemma_public_inputs_partial_roundtrip(a: PublicInputsPartial, b: PublicInputsPartial)
    ensures
        a.encoded().len() == 176,
        a.encoded() == b.encoded() ==> a == b,
{
    lemma_pow256_values();
    lemma_be_bytes_len(a.batch_seq as nat, 8);
    lemma_be_bytes_len(a.batch_timestamp as nat, 8);
    lemma_be_bytes_len(b.batch_seq as nat, 8);
    lemma_be_bytes_len(b.batch_timestamp as nat, 8);
    if a.encoded() == b.encoded() {
        let a2 = a.prev_root@ + a.batch_digest@;
        let b2 = b.prev_root@ + b.batch_digest@;
        let a3 = a2 + a.rules_hash@;
        let b3 = b2 + b.rules_hash@;
        let a4 = a3 + a.domain_separator@;
        let b4 = b3 + b.domain_separator@;
        let a5 = a4 + be_bytes(a.batch_seq as nat, 8);
        let b5 = b4 + be_bytes(b.batch_seq as nat, 8);
        let a6 = a5 + be_bytes(a.batch_timestamp as nat, 8);
        let b6 = b5 + be_bytes(b.batch_timestamp as nat, 8);
        lemma_concat_injective(a6, a.da_commitment@, b6, b.da_commitment@);
        lemma_concat_injective(
            a5,
            be_bytes(a.batch_timestamp as nat, 8),
            b5,
            be_bytes(b.batch_timestamp as nat, 8),
        );
        lemma_concat_injective(
            a4,
            be_bytes(a.batch_seq as nat, 8),
            b4,
            be_bytes(b.batch_seq as nat, 8),
        );
        lemma_concat_injective(a3, a.domain_separator@, b3, b.domain_separator@);
        lemma_concat_injective(a2, a.rules_hash@, b2, b.rules_hash@);
        lemma_concat_injective(a.prev_root@, a.batch_digest@, b.prev_root@, b.batch_digest@);
        lemma_be_bytes_injective(a.batch_seq as nat, b.batch_seq as nat, 8);
        lemma_be_bytes_injective(a.batch_timestamp as nat, b.batch_timestamp as nat, 8);
        assert(a.prev_root =~= b.prev_root);
        assert(a.batch_digest =~= b.batch_digest);
        assert(a.rules_hash =~= b.rules_hash);
        assert(a.domain_separator =~= b.domain_separator);
        assert(a.da_commitment =~= b.da_commitment);
    }
}

/// The public inputs that a batch commits to: what the host supplied and
/// the results.
#[derive(Clone, Copy, Debug)]
pub struct PublicInputs {
    pub prev_root: [u8; 32],
    pub new_root: [u8; 32],
    pub batch_digest: [u8; 32],
    pub rules_hash: [u8; 32],
    pub domain_separator: [u8; 32],
    pub batch_seq: u64,
    pub batch_timestamp: u64,
    pub da_commitment: [u8; 32],
    pub trades_root: [u8; 32],
    pub fees_root: [u8; 32],
}

impl PublicInputs {
    /// The 272 bytes of the record, field by field in their order.
    pub open spec fn encoded(self) -> Seq<u8> {
        self.prev_root@ + self.new_root@ + self.batch_digest@ + self.rules_hash@
            + self.domain_separator@ + be_bytes(self.batch_seq as nat, 8) + be_bytes(
            self.batch_timestamp as nat,
            8,
        ) + self.da_commitment@ + self.trades_root@ + self.fees_root@
    }

    pub fn encode(&self) -> (out: Vec<u8>)
        ensures
            out@ == self.encoded(),
    {
        let mut w = Writer::new();
        w.write_b32(&self.prev_root);
        w.write_b32(&self.new_root);
        w.write_b32(&self.batch_digest);
        w.write_b32(&self.rules_hash);
        w.write_b32(&self.domain_separator);
        w.write_u64(self.batch_seq);
        w.write_u64(self.batch_timestamp);
        w.write_b32(&self.da_commitment);
        w.write_b32(&self.trades_root);
        w.write_b32(&self.fees_root);
        proof {
            assert(w@ =~= self.encoded());
        }
        w.into_bytes()
    }

    /// Reads the record from the front of the reader. Succeeds exactly
    /// when at least 272 bytes are left: what was read is then the
    /// encoding of the result.
    pub fn decode(reader: &mut Reader) -> (r: Result<Self, CoreError>)
        ensures
            match r {
                Ok(public) => old(reader).rest() == public.encoded() + final(reader).rest(),
                Err(e) => e is Decode && old(reader).rest().len() < 272,
            },
    {
        let ghost s = reader.rest();
        let prev_root = reader.read_b32()?;
        let new_root = reader.read_b32()?;
        let batch_digest = reader.read_b32()?;
        let rules_hash = reader.read_b32()?;
        let domain_separator = reader.read_b32()?;
        let batch_seq = reader.read_u64()?;
        let batch_timestamp = reader.read_u64()?;
        let da_commitment = reader.read_b32()?;
        let trades_root = reader.read_b32()?;
        let fees_root = reader.read_b32()?;
        let public = Self {
            prev_root,
            new_root,
            batch_digest,
            rules_hash,
            domain_separator,
            batch_seq,
            batch_timestamp,
            da_commitment,
            trades_root,
            fees_root,
        };
        proof {
            let s2 = s.skip(32);
            let s3 = s2.skip(32);
            let s4 = s3.skip(32);
            let s5 = s4.skip(32);
            let s6 = s5.skip(32);
            let s7 = s6.skip(8);
            let s8 = s7.skip(8);
            let s9 = s8.skip(32);
            let s10 = s9.skip(32);
            lemma_be_bytes_of_value(s6.take(8));
            lemma_be_bytes_of_value(s7.take(8));
            assert(s =~= s.take(32) + s2.take(32) + s3.take(32) + s4.take(32) + s5.take(32)
                + s6.take(8) + s7.take(8) + s8.take(32) + s9.take(32) + s10.take(32) + s10.skip(
                32,
            ));
        }
        Ok(public)
    }
}

/// The encoding of the record is 272 bytes long, and two records with the
/// same bytes are the same record.
pub proof fn lemma_public_inputs_roundtrip(a: PublicInputs, b: PublicInputs)
    ensures
        a.encoded().len() == 272,
        a.encoded() == b.encoded() ==> a == b,
{
    lemma_pow256_values();
    lemma_be_bytes_len(a.batch_seq as nat, 8);
    lemma_be_bytes_len(a.batch_timestamp as nat, 8);
    lemma_be_bytes_len(b.batch_seq as nat, 8);
    lemma_be_bytes_len(b.batch_timestamp as nat, 8);
    if a.encoded() == b.encoded() {
        let a2 = a.prev_root@ + a.new_root@;
        let b2 = b.prev_root@ + b.new_root@;
        let a3 = a2 + a.batch_digest@;
        let b3 = b2 + b.batch_digest@;
        let a4 = a3 + a.rules_hash@;
        let b4 = b3 + b.rules_hash@;
        let a5 = a4 + a.domain_separator@;
        let b5 = b4 + b.domain_separator@;
        let a6 = a5 + be_bytes(a.batch_seq as nat, 8);
        let b6 = b5 + be_bytes(b.batch_seq as nat, 8);
        let a7 = a6 + be_bytes(a.batch_timestamp as nat, 8);
        let b7 = b6 + be_bytes(b.batch_timestamp as nat, 8);
        let a8 = a7 + a.da_commitment@;
        let b8 = b7 + b.da_commitment@;
        let a9 = a8 + a.trades_root@;
        let b9 = b8 + b.trades_root@;
        lemma_concat_injective(a9, a.fees_root@, b9, b.fees_root@);
        lemma_concat_injective(a8, a.trades_root@, b8, b.trades_root@);
        lemma_concat_injective(a7, a.da_commitment@, b7, b.da_commitment@);
        lemma_concat_injective(
            a6,
            be_bytes(a.batch_timestamp as nat, 8),
            b6,
            be_bytes(b.batch_timestamp as nat, 8),
        );
        lemma_concat_injective(
            a5,
            be_bytes(a.batch_seq as nat, 8),
            b5,
            be_bytes(b.batch_seq as nat, 8),
        );
        lemma_concat_injective(a4, a.domain_separator@, b4, b.domain_separator@);
        lemma_concat_injective(a3, a.rules_hash@, b3, b.rules_hash@);
        lemma_concat_injective(a2, a.batch_digest@, b2, b.batch_digest@);
        lemma_concat_injective(a.prev_root@, a.new_root@, b.prev_root@, b.new_root@);
        lemma_be_bytes_injective(a.batch_seq as nat, b.batch_seq as nat, 8);
        lemma_be_bytes_injective(a.batch_timestamp as nat, b.batch_timestamp as nat, 8);
        assert(a.prev_root =~= b.prev_root);
        assert(a.new_root =~= b.new_root);
        assert(a.batch_digest =~= b.batch_digest);
        assert(a.rules_hash =~= b.rules_hash);
        assert(a.domain_separator =~= b.domain_separator);
        assert(a.da_commitment =~= b.da_commitment);
        assert(a.trades_root =~= b.trades_root);
        assert(a.fees_root =~= b.fees_root);
    }
}

/// A recoverable signature: the two scalars and the recovery byte.
#[derive(Clone, Copy, Debug)]
pub struct MessageSignature {
    pub r: [u8; 32],
    pub s: [u8; 32],
    pub v: u8,
}

impl MessageSignature {
    /// The 65 bytes of a signature: `r`, `s`, `v`.
    pub open spec fn encoded(self) -> Seq<u8> {
        self.r@ + self.s@ + seq![self.v]
    }

    pub fn encode(&self) -> (out: [u8; 65])
        ensures
            out@ == self.encoded(),
    {
        let mut w = Writer::new();
        w.write_b32(&self.r);
        w.write_b32(&self.s);
        w.write_u8(self.v);
        proof {
            assert(w@ =~= self.encoded());
        }
        let v = w.into_bytes();
        array65(v.as_slice())
    }
}

/// What a trader asks for: to place an order or to cancel one.
#[derive(Clone, Copy, Debug)]
pub enum Message {
    Place {
        trader: [u8; 20],
        nonce: u64,
        order_id: [u8; 32],
        side: Side,
        tif: TimeInForce,
        tick_index: i32,
        qty_base: U256,
        prev_tick_hint: i32,
        next_tick_hint: i32,
    },
    Cancel { trader: [u8; 20], nonce: u64, order_id: [u8; 32] },
}

impl Message {
    /// The trader who sends the message.
    pub open spec fn sender(self) -> [u8; 20] {
        match self {
            Message::Place { trader, .. } => trader,
            Message::Cancel { trader, .. } => trader,
        }
    }

    /// The nonce that the message carries.
    pub open spec fn sequence(self) -> u64 {
        match self {
            Message::Place { nonce, .. } => nonce,
            Message::Cancel { nonce, .. } => nonce,
        }
    }

    /// The tag of the message's kind: 1 for `Place`, 2 for `Cancel`.
    pub open spec fn tag(self) -> u8 {
        match self {
            Message::Place { .. } => 1,
            Message::Cancel { .. } => 2,
        }
    }

    /// The bytes that the trader signs. The tick hints of a `Place` are not
    /// among them.
    pub open spec fn signed_bytes(self) -> Seq<u8> {
        match self {
            Message::Place { trader, nonce, order_id, side, tif, tick_index, qty_base, .. } => {
                seq![1u8] + trader@ + be_bytes(nonce as nat, 8) + order_id@ + seq![side.code()]
                    + be_bytes(tif.code() as nat, 4) + be_bytes(i32_bits(tick_index), 4) + be_bytes(
                    qty_base@,
                    32,
                )
            },
            Message::Cancel { trader, nonce, order_id } => {
                seq![2u8] + trader@ + be_bytes(nonce as nat, 8) + order_id@
            },
        }
    }

    pub fn type_id(&self) -> (tag: u8)
        ensures
            tag == self.tag(),
    {
        match self {
            Message::Place { .. } => 0x01,
            Message::Cancel { .. } => 0x02,
        }
    }

    /// The trader who sends the message.
    pub fn trader(&self) -> (t: [u8; 20])
        ensures
            t == self.sender(),
    {
        match self {
            Message::Place { trader, .. } => *trader,
            Message::Cancel { trader, .. } => *trader,
        }
    }

    /// The nonce that the message carries.
    pub fn nonce(&self) -> (n: u64)
        ensures
            n == self.sequence(),
    {
        match self {
            Message::Place { nonce, .. } => *nonce,
            Message::Cancel { nonce, .. } => *nonce,
        }
    }

    pub fn encode_signed(&self) -> (out: Vec<u8>)
        ensures
            out@ == self.signed_bytes(),
    {
        let mut w = Writer::new();
        w.write_u8(self.type_id());
        match self {
            Message::Place { trader, nonce, order_id, side, tif, tick_index, qty_base, .. } => {
                w.write_addr(trader);
                w.write_u64(*nonce);
                w.write_b32(order_id);
                w.write_u8(side.as_u8());
                w.write_u32(tif.as_u32());
                w.write_i32(*tick_index);
                w.write_u256(qty_base);
            },
            Message::Cancel { trader, nonce, order_id } => {
                w.write_addr(trader);
                w.write_u64(*nonce);
                w.write_b32(order_id);
            },
        }
        proof {
            assert(w@ =~= self.signed_bytes());
        }
        w.into_bytes()
    }
}

/// A message with the signature of its sender.
#[derive(Clone, Copy, Debug)]
pub struct SignedMessage {
    pub message: Message,
    pub signature: MessageSignature,
}

impl SignedMessage {
    /// The bytes of a signed message on the wire: the signed bytes, the
    /// signature, and for a `Place` the two tick hints.
    pub open spec fn encoded(self) -> Seq<u8> {
        match self.message {
            Message::Place { prev_tick_hint, next_tick_hint, .. } => {
                self.message.signed_bytes() + self.signature.encoded() + be_bytes(
                    i32_bits(prev_tick_hint),
                    4,
                ) + be_bytes(i32_bits(next_tick_hint), 4)
            },
            Message::Cancel { .. } => self.message.signed_bytes() + self.signature.encoded(),
        }
    }
}

/// The bytes of messages on the wire, one after another.
pub open spec fn messages_encoded(messages: Seq<SignedMessage>) -> Seq<u8>
    decreases messages.len(),
{
    if messages.len() == 0 {
        Seq::empty()
    } else {
        messages_encoded(messages.drop_last()) + messages.last().encoded()
    }
}

/// How many bytes the message at the front of `input` takes: 175 for a
/// `Place` with valid codes for side and time in force, 126 for a
/// `Cancel`, and `None` when no message stands there.
pub open spec fn message_span(input: Seq<u8>) -> Option<nat> {
    if input.len() >= 175 && input[0] == 1 && input[61] <= 1 && be_value(input.subrange(62, 66))
        <= 1 {
        Some(175nat)
    } else if input.len() >= 126 && input[0] == 2 {
        Some(126nat)
    } else {
        None
    }
}

/// How many bytes the `count` messages at the front of `input` take, or
/// `None` when fewer messages stand there.
pub open spec fn messages_span(input: Seq<u8>, count: nat) -> Option<nat>
    decreases count,
{
    if count == 0 {
        Some(0nat)
    } else {
        match message_span(input) {
            Some(n) => match messages_span(input.skip(n as int), (count - 1) as nat) {
                Some(m) => Some(n + m),
                None => None,
            },
            None => None,
        }
    }
}

/// Writes a signed message as it stands on the wire.
pub fn encode_message(w: &mut Writer, signed: &SignedMessage)
    ensures
        final(w)@ == old(w)@ + signed.encoded(),
{
    let signed_bytes = signed.message.encode_signed();
    w.write_raw(signed_bytes.as_slice());
    let sig = signed.signature.encode();
    w.write_raw(sig.as_slice());
    match &signed.message {
        Message::Place { prev_tick_hint, next_tick_hint, .. } => {
            w.write_i32(*prev_tick_hint);
            w.write_i32(*next_tick_hint);
        },
        Message::Cancel { .. } => {},
    }
    proof {
        assert(w@ =~= old(w)@ + signed.encoded());
    }
}

/// Reads the 65 bytes of a signature.
fn decode_signature(reader: &mut Reader) -> (r: Result<MessageSignature, CoreError>)
    ensures
        match r {
            Ok(sig) => old(reader).rest().len() >= 65 && sig.encoded() == old(reader).rest().take(
                65,
            ) && final(reader).rest() == old(reader).rest().skip(65),
            Err(e) => e is Decode && old(reader).rest().len() < 65,
        },
{
    let ghost s = reader.rest();
    let r = reader.read_b32()?;
    let s_part = reader.read_b32()?;
    let v = reader.read_u8()?;
    let sig = MessageSignature { r, s: s_part, v };
    proof {
        assert(sig.encoded() =~= s.take(65));
        assert(reader.rest() =~= s.skip(65));
    }
    Ok(sig)
}

/// Reads what follows the tag of a `Place` message.
fn decode_place(reader: &mut Reader, Ghost(s): Ghost<Seq<u8>>) -> (r: Result<
    SignedMessage,
    CoreError,
>)
    requires
        s.len() >= 1,
        s[0] == 1,
        old(reader).rest() == s.skip(1),
    ensures
        match r {
            Ok(m) => s == m.encoded() + final(reader).rest() && message_span(s) == Some(
                m.encoded().len(),
            ),
            Err(e) => e is Decode && message_span(s) is None,
        },
{
    let trader = reader.read_addr()?;
    proof {
        assert(trader@ =~= s.subrange(1, 21));
        assert(reader.rest() =~= s.skip(21));
    }
    let nonce = reader.read_u64()?;
    proof {
        assert(s.skip(21).take(8) =~= s.subrange(21, 29));
        lemma_be_bytes_of_value(s.subrange(21, 29));
        assert(reader.rest() =~= s.skip(29));
    }
    let order_id = reader.read_b32()?;
    proof {
        assert(order_id@ =~= s.subrange(29, 61));
        assert(reader.rest() =~= s.skip(61));
    }
    let side_byte = reader.read_u8()?;
    proof {
        assert(s.skip(61)[0] == s[61]);
        assert(reader.rest() =~= s.skip(62));
    }
    let side = Side::from_u8(side_byte)?;
    let tif_code = reader.read_u32()?;
    proof {
        assert(s.skip(62).take(4) =~= s.subrange(62, 66));
        lemma_be_bytes_of_value(s.subrange(62, 66));
        assert(reader.rest() =~= s.skip(66));
    }
    let tif = TimeInForce::from_u32(tif_code)?;
    let tick_index = reader.read_i32()?;
    proof {
        assert(s.skip(66).take(4) =~= s.subrange(66, 70));
        lemma_pow256_values();
        lemma_be_value_bound(s.subrange(66, 70));
        crate::bytes::lemma_i32_of_bits_roundtrip(be_value(s.subrange(66, 70)));
        lemma_be_bytes_of_value(s.subrange(66, 70));
        assert(reader.rest() =~= s.skip(70));
    }
    let qty_base = reader.read_u256()?;
    proof {
        assert(s.skip(70).take(32) =~= s.subrange(70, 102));
        lemma_be_bytes_of_value(s.subrange(70, 102));
        assert(reader.rest() =~= s.skip(102));
    }
    let signature = decode_signature(reader)?;
    proof {
        assert(s.skip(102).take(65) =~= s.subrange(102, 167));
        assert(reader.rest() =~= s.skip(167));
    }
    let prev_tick_hint = reader.read_i32()?;
    proof {
        assert(s.skip(167).take(4) =~= s.subrange(167, 171));
        lemma_be_value_bound(s.subrange(167, 171));
        crate::bytes::lemma_i32_of_bits_roundtrip(be_value(s.subrange(167, 171)));
        lemma_be_bytes_of_value(s.subrange(167, 171));
        assert(reader.rest() =~= s.skip(171));
    }
    let next_tick_hint = reader.read_i32()?;
    proof {
        assert(s.skip(171).take(4) =~= s.subrange(171, 175));
        lemma_be_value_bound(s.subrange(171, 175));
        crate::bytes::lemma_i32_of_bits_roundtrip(be_value(s.subrange(171, 175)));
        lemma_be_bytes_of_value(s.subrange(171, 175));
        assert(reader.rest() =~= s.skip(175));
    }
    let message = Message::Place {
        trader,
        nonce,
        order_id,
        side,
        tif,
        tick_index,
        qty_base,
        prev_tick_hint,
        next_tick_hint,
    };
    let signed = SignedMessage { message, signature };
    proof {
        let signed_part = seq![1u8] + s.subrange(1, 21) + s.subrange(21, 29) + s.subrange(29, 61)
            + seq![s[61]] + s.subrange(62, 66) + s.subrange(66, 70) + s.subrange(70, 102);
        assert(message.signed_bytes() == signed_part);
        assert(signed_part =~= s.subrange(0, 102));
        assert(signed.encoded() == s.subrange(0, 102) + s.subrange(102, 167) + s.subrange(
            167,
            171,
        ) + s.subrange(171, 175));
        assert(s.subrange(0, 102) + s.subrange(102, 167) + s.subrange(167, 171) + s.subrange(
            171,
            175,
        ) =~= s.take(175));
        assert(s =~= s.take(175) + s.skip(175));
    }
    Ok(signed)
}

/// Reads what follows the tag of a `Cancel` message.
fn decode_cancel(reader: &mut Reader, Ghost(s): Ghost<Seq<u8>>) -> (r: Result<
    SignedMessage,
    CoreError,
>)
    requires
        s.len() >= 1,
        s[0] == 2,
        old(reader).rest() == s.skip(1),
    ensures
        match r {
            Ok(m) => s == m.encoded() + final(reader).rest() && message_span(s) == Some(
                m.encoded().len(),
            ),
            Err(e) => e is Decode && message_span(s) is None,
        },
{
    let trader = reader.read_addr()?;
    proof {
        assert(trader@ =~= s.subrange(1, 21));
        assert(reader.rest() =~= s.skip(21));
    }
    let nonce = reader.read_u64()?;
    proof {
        assert(s.skip(21).take(8) =~= s.subrange(21, 29));
        lemma_be_bytes_of_value(s.subrange(21, 29));
        assert(reader.rest() =~= s.skip(29));
    }
    let order_id = reader.read_b32()?;
    proof {
        assert(order_id@ =~= s.subrange(29, 61));
        assert(reader.rest() =~= s.skip(61));
    }
    let signature = decode_signature(reader)?;
    proof {
        assert(s.skip(61).take(65) =~= s.subrange(61, 126));
        assert(reader.rest() =~= s.skip(126));
    }
    let message = Message::Cancel { trader, nonce, order_id };
    let signed = SignedMessage { message, signature };
    proof {
        let signed_part = seq![2u8] + s.subrange(1, 21) + s.subrange(21, 29) + s.subrange(29, 61);
        assert(message.signed_bytes() == signed_part);
        assert(signed_part =~= s.subrange(0, 61));
        assert(s.subrange(0, 61) + s.subrange(61, 126) =~= s.take(126));
        assert(s =~= s.take(126) + s.skip(126));
    }
    Ok(signed)
}

/// Reads one signed message from the front of the reader. Succeeds
/// exactly when a message stands there: what was read is then the
/// encoding of the result.
pub fn decode_message(reader: &mut Reader) -> (r: Result<SignedMessage, CoreError>)
    ensures
        match r {
            Ok(m) => old(reader).rest() == m.encoded() + final(reader).rest() && message_span(
                old(reader).rest(),
            ) == Some(m.encoded().len()),
            Err(e) => e is Decode && message_span(old(reader).rest()) is None,
        },
{
    let ghost s = reader.rest();
    let msg_type = reader.read_u8()?;
    if msg_type == 0x01 {
        decode_place(reader, Ghost(s))
    } else if msg_type == 0x02 {
        decode_cancel(reader, Ghost(s))
    } else {
        Err(CoreError::Decode("unknown message type"))
    }
}

/// What the host hands to the prover besides the proofs.
#[derive(Clone, Debug)]
pub struct GuestInput {
    pub public: PublicInputsPartial,
    pub chain_id: u64,
    pub venue_id: [u8; 32],
    pub market_id: [u8; 32],
    pub rules: Rules,
    pub messages: Vec<SignedMessage>,
}

impl GuestInput {
    /// The bytes of the input: the public inputs, the chain, venue and
    /// market ids, the rules, the number of messages and the messages.
    pub open spec fn encoded(&self) -> Seq<u8> {
        self.public.encoded() + be_bytes(self.chain_id as nat, 8) + self.venue_id@
            + self.market_id@ + self.rules.encoded() + be_bytes(self.messages@.len(), 4)
            + messages_encoded(self.messages@)
    }

    /// Whether two inputs hold the same values.
    pub open spec fn same_as(&self, other: &GuestInput) -> bool {
        &&& self.public == other.public
        &&& self.chain_id == other.chain_id
        &&& self.venue_id == other.venue_id
        &&& self.market_id == other.market_id
        &&& self.rules == other.rules
        &&& self.messages@ == other.messages@
    }

    /// How many bytes the input at the front of `input` takes, or `None`
    /// when no input stands there: the fixed part is 460 bytes long and
    /// ends with the number of messages that follow it.
    pub open spec fn span(input: Seq<u8>) -> Option<nat> {
        if input.len() < 460 {
            None
        } else {
            match messages_span(input.skip(460), be_value(input.subrange(456, 460))) {
                Some(n) => Some(460 + n),
                None => None,
            }
        }
    }

    pub fn encode(&self) -> (out: Vec<u8>)
        requires
            self.messages@.len() <= u32::MAX,
        ensures
            out@ == self.encoded(),
    {
        let mut w = Writer::new();
        let public = self.public.encode();
        w.write_raw(public.as_slice());
        w.write_u64(self.chain_id);
        w.write_b32(&self.venue_id);
        w.write_b32(&self.market_id);
        let rules = self.rules.encode();
        w.write_raw(rules.as_slice());
        w.write_u32(self.messages.len() as u32);
        let ghost head = w@;
        let mut i: usize = 0;
        proof {
            assert(self.messages@.take(0) =~= Seq::<SignedMessage>::empty());
            assert(head + messages_encoded(self.messages@.take(0)) =~= head);
        }
        while i < self.messages.len()
            invariant
                i <= self.messages@.len(),
                w@ == head + messages_encoded(self.messages@.take(i as int)),
            decreases self.messages@.len() - i,
        {
            encode_message(&mut w, &self.messages[i]);
            proof {
                let next = self.messages@.take(i + 1);
                assert(next.drop_last() =~= self.messages@.take(i as int));
                assert(next.last() == self.messages@[i as int]);
                assert(w@ =~= head + messages_encoded(next));
            }
            i += 1;
        }
        proof {
            assert(self.messages@.take(self.messages@.len() as int) =~= self.messages@);
            assert(w@ =~= self.encoded());
        }
        w.into_bytes()
    }

    /// Reads an input from the front of the reader. Succeeds exactly when
    /// an input stands there: what was read is then the encoding of the
    /// result.
    pub fn decode(reader: &mut Reader) -> (r: Result<Self, CoreError>)
        ensures
            match r {
                Ok(input) => old(reader).rest() == input.encoded() + final(reader).rest()
                    && input.messages@.len() <= u32::MAX && GuestInput::span(old(reader).rest())
                    == Some(input.encoded().len()),
                Err(e) => e is Decode && GuestInput::span(old(reader).rest()) is None,
            },
    {
        let ghost s = reader.rest();
        let public = PublicInputsPartial::decode(reader)?;
        proof {
            lemma_public_inputs_partial_roundtrip(public, public);
            assert((public.encoded() + reader.rest()).len() == 176 + reader.rest().len());
            assert(s.take(176) + s.skip(176) =~= s);
            lemma_concat_injective(public.encoded(), reader.rest(), s.take(176), s.skip(176));
        }
        let chain_id = reader.read_u64()?;
        proof {
            assert(s.skip(176).take(8) =~= s.subrange(176, 184));
            lemma_be_bytes_of_value(s.subrange(176, 184));
            assert(reader.rest() =~= s.skip(184));
        }
        let venue_id = reader.read_b32()?;
        proof {
            assert(venue_id@ =~= s.subrange(184, 216));
            assert(reader.rest() =~= s.skip(216));
        }
        let market_id = reader.read_b32()?;
        proof {
            assert(market_id@ =~= s.subrange(216, 248));
            assert(reader.rest() =~= s.skip(248));
        }
        let ghost before_rules = reader.rest();
        let rules = Rules::decode(reader)?;
        proof {
            lemma_rules_roundtrip(rules, rules);
            assert((rules.encoded() + reader.rest()).len() == 208 + reader.rest().len());
            assert(before_rules.take(208) + before_rules.skip(208) =~= before_rules);
            lemma_concat_injective(
                rules.encoded(),
                reader.rest(),
                before_rules.take(208),
                before_rules.skip(208),
            );
            assert(rules.encoded() =~= s.subrange(248, 456));
            assert(reader.rest() =~= s.skip(456));
        }
        let msg_count = reader.read_u32()?;
        let ghost body = reader.rest();
        let ghost head = public.encoded() + be_bytes(chain_id as nat, 8) + venue_id@ + market_id@
            + rules.encoded() + be_bytes(msg_count as nat, 4);
        proof {
            assert(s.skip(456).take(4) =~= s.subrange(456, 460));
            lemma_be_bytes_of_value(s.subrange(456, 460));
            assert(body =~= s.skip(460));
            assert(head =~= s.take(460));
            assert(s =~= head + body);
        }
        let mut messages: Vec<SignedMessage> = Vec::new();
        let mut i: u32 = 0;
        proof {
            assert(messages_encoded(messages@) + body =~= body);
        }
        while i < msg_count
            invariant
                i <= msg_count,
                messages@.len() == i,
                body == messages_encoded(messages@) + reader.rest(),
                messages_span(body, msg_count as nat) == (match messages_span(
                    reader.rest(),
                    (msg_count - i) as nat,
                ) {
                    Some(m) => Some((body.len() - reader.rest().len() + m) as nat),
                    None => None,
                }),
                s == old(reader).rest(),
                s == head + body,
                head.len() == 460,
                s.len() >= 460,
                body == s.skip(460),
                be_value(s.subrange(456, 460)) == msg_count,
            decreases msg_count - i,
        {
            let ghost before = reader.rest();
            let message = match decode_message(reader) {
                Ok(m) => m,
                Err(e) => {
                    proof {
                        assert(messages_span(before, (msg_count - i) as nat) is None);
                    }
                    return Err(e);
                },
            };
            proof {
                let n = message.encoded().len();
                assert((message.encoded() + reader.rest()).len() == n + reader.rest().len());
                assert(before.skip(n as int) =~= reader.rest());
                let grown = messages@.push(message);
                assert(grown.drop_last() =~= messages@);
                assert(grown.last() == message);
                assert(messages_encoded(grown) + reader.rest() =~= messages_encoded(messages@)
                    + before);
                assert(messages_span(before, (msg_count - i) as nat) == (match messages_span(
                    reader.rest(),
                    (msg_count - i - 1) as nat,
                ) {
                    Some(m) => Some(n + m),
                    None => None,
                }));
            }
            messages.push(message);
            i += 1;
        }
        let input = Self { public, chain_id, venue_id, market_id, rules, messages };
        proof {
            assert(input.encoded() =~= head + messages_encoded(input.messages@));
            assert(s =~= input.encoded() + reader.rest());
            assert((input.encoded() + reader.rest()).len() == input.encoded().len()
                + reader.rest().len());
            assert((messages_encoded(input.messages@) + reader.rest()).len() == messages_encoded(
                input.messages@,
            ).len() + reader.rest().len());
        }
        Ok(input)
    }
}

/// The byte that says whether a proof claims a value: 1 if it does.
pub open spec fn present_code(present: bool) -> u8 {
    if present {
        1
    } else {
        0
    }
}

/// The bytes of a proof on the wire: the key, the present flag, the
/// value with its length in front, and the sibling hashes.
pub open spec fn proof_encoded(proof: Proof) -> Seq<u8> {
    proof.key@ + seq![present_code(proof.present)] + length_prefixed(proof.value@) + joined(
        proof.siblings@,
    )
}

/// Whether a proof can be written: it has 256 siblings and its value is
/// short enough for a 32-bit length.
pub open spec fn proof_encodable(proof: Proof) -> bool {
    proof.siblings@.len() == 256 && proof.value@.len() <= u32::MAX
}

/// The bytes of proofs on the wire, one after another.
pub open spec fn proofs_encoded(proofs: Seq<Proof>) -> Seq<u8>
    decreases proofs.len(),
{
    if proofs.len() == 0 {
        Seq::empty()
    } else {
        proofs_encoded(proofs.drop_last()) + proof_encoded(proofs.last())
    }
}

/// How many bytes the proof at the front of `input` takes, or `None`
/// when no proof stands there: 32 bytes of key, a flag of 0 or 1, a
/// length, as many bytes of value, and 256 hashes.
pub open spec fn proof_span(input: Seq<u8>) -> Option<nat> {
    if input.len() >= 37 && input[32] <= 1 && input.len() - 37 >= be_value(input.subrange(33, 37))
        + 8192 {
        Some(37 + be_value(input.subrange(33, 37)) + 8192)
    } else {
        None
    }
}

/// How many bytes the `count` proofs at the front of `input` take, or
/// `None` when fewer proofs stand there.
pub open spec fn proofs_span(input: Seq<u8>, count: nat) -> Option<nat>
    decreases count,
{
    if count == 0 {
        Some(0nat)
    } else {
        match proof_span(input) {
            Some(n) => match proofs_span(input.skip(n as int), (count - 1) as nat) {
                Some(m) => Some(n + m),
                None => None,
            },
            None => None,
        }
    }
}

/// Joined hashes take 32 bytes each.
pub proof fn lemma_joined_len(hashes: Seq<[u8; 32]>)
    ensures
        joined(hashes).len() == 32 * hashes.len(),
    decreases hashes.len(),
{
    if hashes.len() > 0 {
        lemma_joined_len(hashes.drop_last());
    }
}

/// Writes a proof as it stands on the wire.
pub fn encode_proof(w: &mut Writer, proof: &Proof)
    requires
        proof_encodable(*proof),
    ensures
        final(w)@ == old(w)@ + proof_encoded(*proof),
{
    w.write_b32(&proof.key);
    w.write_u8(if proof.present {
        1
    } else {
        0
    });
    w.write_bytes(proof.value.as_slice());
    let ghost head = w@;
    let mut i: usize = 0;
    proof {
        assert(proof.siblings@.take(0) =~= Seq::<[u8; 32]>::empty());
        assert(head + joined(proof.siblings@.take(0)) =~= head);
    }
    while i < proof.siblings.len()
        invariant
            i <= proof.siblings@.len(),
            w@ == head + joined(proof.siblings@.take(i as int)),
        decreases proof.siblings@.len() - i,
    {
        w.write_b32(&proof.siblings[i]);
        proof {
            let next = proof.siblings@.take(i + 1);
            assert(next.drop_last() =~= proof.siblings@.take(i as int));
            assert(next.last() == proof.siblings@[i as int]);
            assert(w@ =~= head + joined(next));
        }
        i += 1;
    }
    proof {
        assert(proof.siblings@.take(proof.siblings@.len() as int) =~= proof.siblings@);
        assert(w@ =~= old(w)@ + proof_encoded(*proof));
    }
}

/// Reads one proof from the front of the reader. Succeeds exactly when a
/// proof stands there: what was read is then the encoding of the result.
pub fn decode_proof(reader: &mut Reader) -> (r: Result<Proof, CoreError>)
    ensures
        match r {
            Ok(p) => old(reader).rest() == proof_encoded(p) + final(reader).rest()
                && proof_encodable(p) && proof_span(old(reader).rest()) == Some(
                proof_encoded(p).len(),
            ),
            Err(e) => e is Decode && proof_span(old(reader).rest()) is None,
        },
{
    let ghost s = reader.rest();
    let key = reader.read_b32()?;
    proof {
        assert(key@ =~= s.subrange(0, 32));
        assert(reader.rest() =~= s.skip(32));
    }
    let flag = reader.read_u8()?;
    proof {
        assert(s.skip(32)[0] == s[32]);
        assert(reader.rest() =~= s.skip(33));
    }
    if flag > 1 {
        return Err(CoreError::Decode("invalid present flag"));
    }
    let present = flag != 0;
    proof {
        if s.len() >= 37 {
            assert(s.skip(33).take(4) =~= s.subrange(33, 37));
        }
    }
    let ghost tail = reader.rest();
    let value = reader.read_bytes()?;
    let ghost n = value@.len() as int;
    proof {
        let prefixed = length_prefixed(value@);
        lemma_be_bytes_len(n as nat, 4);
        lemma_pow256_values();
        crate::bytes::lemma_be_value_of_bytes(n as nat, 4);
        assert(prefixed.len() == 4 + n);
        assert((prefixed + reader.rest()).len() == 4 + n + reader.rest().len());
        assert(tail == prefixed + reader.rest());
        assert(tail.take(4) =~= be_bytes(n as nat, 4));
        assert(s.skip(33).take(4) =~= s.subrange(33, 37));
        assert(be_value(s.subrange(33, 37)) == n);
        assert(reader.rest() =~= tail.skip(4 + n));
        assert(tail.skip(4 + n) =~= s.skip(37 + n));
        assert(prefixed =~= tail.take(4 + n));
        assert(tail.take(4 + n) =~= s.subrange(33, 37 + n));
    }
    let mut siblings: Vec<[u8; 32]> = Vec::new();
    let mut i: usize = 0;
    proof {
        assert(joined(siblings@) =~= s.subrange(37 + n, 37 + n));
    }
    while i < 256
        invariant
            i <= 256,
            siblings@.len() == i,
            s == old(reader).rest(),
            s.len() >= 37 + n + 32 * i,
            s[32] <= 1,
            be_value(s.subrange(33, 37)) == n,
            reader.rest() == s.skip(37 + n + 32 * i),
            joined(siblings@) == s.subrange(37 + n, 37 + n + 32 * i),
        decreases 256 - i,
    {
        let hash = reader.read_b32()?;
        proof {
            let start = 37 + n + 32 * i;
            assert(hash@ =~= s.subrange(start, start + 32));
            assert(reader.rest() =~= s.skip(start + 32));
            let grown = siblings@.push(hash);
            assert(grown.drop_last() =~= siblings@);
            assert(joined(grown) =~= s.subrange(37 + n, start + 32));
        }
        siblings.push(hash);
        i += 1;
    }
    let proof = Proof { key, value, present, siblings };
    proof {
        assert(seq![present_code(present)] =~= s.subrange(32, 33));
        assert(proof_encoded(proof) =~= s.take(37 + n + 8192));
        assert(s =~= s.take(37 + n + 8192) + s.skip(37 + n + 8192));
    }
    Ok(proof)
}

/// What the host hands to the prover: the input and the proofs for every
/// access to the state, in the order of the accesses.
#[derive(Clone, Debug)]
pub struct GuestBundle {
    pub input: GuestInput,
    pub proofs: Vec<Proof>,
}

impl GuestBundle {
    /// The bytes of the bundle: the input, the number of proofs and the proofs.
    pub open spec fn encoded(&self) -> Seq<u8> {
        self.input.encoded() + be_bytes(self.proofs@.len(), 4) + proofs_encoded(self.proofs@)
    }

    /// Whether the bundle can be written: the numbers of messages and of
    /// proofs fit in 32 bits, and every proof can be written.
    pub open spec fn encodable(&self) -> bool {
        &&& self.input.messages@.len() <= u32::MAX
        &&& self.proofs@.len() <= u32::MAX
        &&& forall|i: int| 0 <= i < self.proofs@.len() ==> proof_encodable(#[trigger] self.proofs@[i])
    }

    /// How many bytes the bundle at the front of `input` takes, or `None`
    /// when no bundle stands there.
    pub open spec fn span(input: Seq<u8>) -> Option<nat> {
        match GuestInput::span(input) {
            Some(a) => if a + 4 > input.len() {
                None
            } else {
                match proofs_span(
                    input.skip(a as int + 4),
                    be_value(input.subrange(a as int, a as int + 4)),
                ) {
                    Some(b) => Some(a + 4 + b),
                    None => None,
                }
            },
            None => None,
        }
    }

    pub fn encode(&self) -> (out: Vec<u8>)
        requires
            self.encodable(),
        ensures
            out@ == self.encoded(),
    {
        let mut w = Writer::new();
        let input = self.input.encode();
        w.write_raw(input.as_slice());
        w.write_u32(self.proofs.len() as u32);
        let ghost head = w@;
        let mut i: usize = 0;
        proof {
            assert(self.proofs@.take(0) =~= Seq::<Proof>::empty());
            assert(head + proofs_encoded(self.proofs@.take(0)) =~= head);
        }
        while i < self.proofs.len()
            invariant
                i <= self.proofs@.len(),
                self.encodable(),
                w@ == head + proofs_encoded(self.proofs@.take(i as int)),
            decreases self.proofs@.len() - i,
        {
            encode_proof(&mut w, &self.proofs[i]);
            proof {
                let next = self.proofs@.take(i + 1);
                assert(next.drop_last() =~= self.proofs@.take(i as int));
                assert(next.last() == self.proofs@[i as int]);
                assert(w@ =~= head + proofs_encoded(next));
            }
            i += 1;
        }
        proof {
            assert(self.proofs@.take(self.proofs@.len() as int) =~= self.proofs@);
            assert(w@ =~= self.encoded());
        }
        w.into_bytes()
    }

    /// Reads a bundle from the front of the reader. Succeeds exactly when
    /// a bundle stands there: what was read is then the encoding of the
    /// result.
    pub fn decode(reader: &mut Reader) -> (r: Result<Self, CoreError>)
        ensures
            match r {
                Ok(bundle) => old(reader).rest() == bundle.encoded() + final(reader).rest()
                    && bundle.encodable() && GuestBundle::span(old(reader).rest()) == Some(
                    bundle.encoded().len(),
                ),
                Err(e) => e is Decode && GuestBundle::span(old(reader).rest()) is None,
            },
    {
        let ghost s = reader.rest();
        let input = GuestInput::decode(reader)?;
        let ghost a = input.encoded().len() as int;
        proof {
            assert((input.encoded() + reader.rest()).len() == a + reader.rest().len());
            assert(reader.rest() =~= s.skip(a));
        }
        let proof_count = reader.read_u32()?;
        let ghost body = reader.rest();
        proof {
            assert(s.skip(a).take(4) =~= s.subrange(a, a + 4));
            lemma_be_bytes_of_value(s.subrange(a, a + 4));
            assert(body =~= s.skip(a + 4));
            assert(input.encoded() + be_bytes(proof_count as nat, 4) =~= s.take(a + 4));
        }
        let mut proofs: Vec<Proof> = Vec::new();
        let mut i: u32 = 0;
        proof {
            assert(proofs_encoded(proofs@) + body =~= body);
        }
        while i < proof_count
            invariant
                i <= proof_count,
                proofs@.len() == i,
                forall|j: int| 0 <= j < proofs@.len() ==> proof_encodable(#[trigger] proofs@[j]),
                body == proofs_encoded(proofs@) + reader.rest(),
                proofs_span(body, proof_count as nat) == (match proofs_span(
                    reader.rest(),
                    (proof_count - i) as nat,
                ) {
                    Some(m) => Some((body.len() - reader.rest().len() + m) as nat),
                    None => None,
                }),
                s == old(reader).rest(),
                GuestInput::span(s) == Some(a as nat),
                0 <= a,
                a + 4 <= s.len(),
                body == s.skip(a + 4),
                be_value(s.subrange(a, a + 4)) == proof_count,
            decreases proof_count - i,
        {
            let ghost before = reader.rest();
            let proof = match decode_proof(reader) {
                Ok(p) => p,
                Err(e) => {
                    proof {
                        assert(proofs_span(before, (proof_count - i) as nat) is None);
                    }
                    return Err(e);
                },
            };
            proof {
                let n = proof_encoded(proof).len();
                assert((proof_encoded(proof) + reader.rest()).len() == n + reader.rest().len());
                assert(before.skip(n as int) =~= reader.rest());
                let grown = proofs@.push(proof);
                assert(grown.drop_last() =~= proofs@);
                assert(grown.last() == proof);
                assert(proofs_encoded(grown) + reader.rest() =~= proofs_encoded(proofs@)
                    + before);
                assert(proofs_span(before, (proof_count - i) as nat) == (match proofs_span(
                    reader.rest(),
                    (proof_count - i - 1) as nat,
                ) {
                    Some(m) => Some(n + m),
                    None => None,
                }));
            }
            proofs.push(proof);
            i += 1;
        }
        let bundle = Self { input, proofs };
        proof {
            assert(bundle.encoded() =~= s.take(a + 4) + proofs_encoded(bundle.proofs@));
            assert(s =~= s.take(a + 4) + body);
            assert(s =~= bundle.encoded() + reader.rest());
            assert((proofs_encoded(bundle.proofs@) + reader.rest()).len() == proofs_encoded(
                bundle.proofs@,
            ).len() + reader.rest().len());
            assert((bundle.encoded() + reader.rest()).len() == bundle.encoded().len()
                + reader.rest().len());
        }
        Ok(bundle)
    }
}

/// Where each field of a signed message stands in its encoding.
pub proof fn lemma_message_layout(m: SignedMessage)
    ensures
        m.encoded().len() == (if m.message is Place {
            175nat
        } else {
            126nat
        }),
        m.encoded()[0] == m.message.tag(),
        m.encoded().subrange(1, 21) == m.message.sender()@,
        be_value(m.encoded().subrange(21, 29)) == m.message.sequence(),
        m.message matches Message::Place {
            order_id,
            side,
            tif,
            tick_index,
            qty_base,
            prev_tick_hint,
            next_tick_hint,
            ..
        } ==> {
            &&& m.encoded().subrange(29, 61) == order_id@
            &&& m.encoded()[61] == side.code()
            &&& be_value(m.encoded().subrange(62, 66)) == tif.code()
            &&& be_value(m.encoded().subrange(66, 70)) == i32_bits(tick_index)
            &&& be_value(m.encoded().subrange(70, 102)) == qty_base@
            &&& m.encoded().subrange(102, 134) == m.signature.r@
            &&& m.encoded().subrange(134, 166) == m.signature.s@
            &&& m.encoded()[166] == m.signature.v
            &&& be_value(m.encoded().subrange(167, 171)) == i32_bits(prev_tick_hint)
            &&& be_value(m.encoded().subrange(171, 175)) == i32_bits(next_tick_hint)
        },
        m.message matches Message::Cancel { order_id, .. } ==> {
            &&& m.encoded().subrange(29, 61) == order_id@
            &&& m.encoded().subrange(61, 93) == m.signature.r@
            &&& m.encoded().subrange(93, 125) == m.signature.s@
            &&& m.encoded()[125] == m.signature.v
        },
{
    lemma_pow256_values();
    let e = m.encoded();
    match m.message {
        Message::Place {
            trader,
            nonce,
            order_id,
            side,
            tif,
            tick_index,
            qty_base,
            prev_tick_hint,
            next_tick_hint,
        } => {
            lemma_be_bytes_len(nonce as nat, 8);
            lemma_be_bytes_len(tif.code() as nat, 4);
            lemma_be_bytes_len(i32_bits(tick_index), 4);
            lemma_be_bytes_len(qty_base@, 32);
            lemma_be_bytes_len(i32_bits(prev_tick_hint), 4);
            lemma_be_bytes_len(i32_bits(next_tick_hint), 4);
            crate::bytes::lemma_be_value_of_bytes(nonce as nat, 8);
            crate::bytes::lemma_be_value_of_bytes(tif.code() as nat, 4);
            crate::bytes::lemma_be_value_of_bytes(i32_bits(tick_index), 4);
            crate::bytes::lemma_be_value_of_bytes(qty_base@, 32);
            crate::bytes::lemma_be_value_of_bytes(i32_bits(prev_tick_hint), 4);
            crate::bytes::lemma_be_value_of_bytes(i32_bits(next_tick_hint), 4);
            assert(e.len() == 175);
            assert(e.subrange(1, 21) =~= trader@);
            assert(e.subrange(21, 29) =~= be_bytes(nonce as nat, 8));
            assert(e.subrange(29, 61) =~= order_id@);
            assert(e.subrange(62, 66) =~= be_bytes(tif.code() as nat, 4));
            assert(e.subrange(66, 70) =~= be_bytes(i32_bits(tick_index), 4));
            assert(e.subrange(70, 102) =~= be_bytes(qty_base@, 32));
            assert(e.subrange(102, 134) =~= m.signature.r@);
            assert(e.subrange(134, 166) =~= m.signature.s@);
            assert(e.subrange(167, 171) =~= be_bytes(i32_bits(prev_tick_hint), 4));
            assert(e.subrange(171, 175) =~= be_bytes(i32_bits(next_tick_hint), 4));
        },
        Message::Cancel { trader, nonce, order_id } => {
            lemma_be_bytes_len(nonce as nat, 8);
            crate::bytes::lemma_be_value_of_bytes(nonce as nat, 8);
            assert(e.len() == 126);
            assert(e.subrange(1, 21) =~= trader@);
            assert(e.subrange(21, 29) =~= be_bytes(nonce as nat, 8));
            assert(e.subrange(29, 61) =~= order_id@);
            assert(e.subrange(61, 93) =~= m.signature.r@);
            assert(e.subrange(93, 125) =~= m.signature.s@);
        },
    }
}

/// A message is found at the front of its own encoding, whatever follows,
/// and two messages with the same encoding are the same message.
pub proof fn lemma_message_roundtrip(a: SignedMessage, b: SignedMessage, tail: Seq<u8>)
    ensures
        message_span(a.encoded() + tail) == Some(a.encoded().len()),
        a.encoded() == b.encoded() ==> a == b,
{
    lemma_message_layout(a);
    lemma_message_layout(b);
    lemma_pow256_values();
    let e = a.encoded();
    let full = e + tail;
    assert(full.len() == e.len() + tail.len());
    assert(full[0] == e[0]);
    if a.message is Place {
        assert(full[61] == e[61]);
        assert(full.subrange(62, 66) =~= e.subrange(62, 66));
    }
    if a.encoded() == b.encoded() {
        assert(a.message.sender() =~= b.message.sender());
        assert(a.signature.r =~= b.signature.r);
        assert(a.signature.s =~= b.signature.s);
        match (a.message, b.message) {
            (
                Message::Place {
                    order_id: oa,
                    tick_index: ta,
                    qty_base: qa,
                    prev_tick_hint: pa,
                    next_tick_hint: na,
                    ..
                },
                Message::Place {
                    order_id: ob,
                    tick_index: tb,
                    qty_base: qb,
                    prev_tick_hint: pb,
                    next_tick_hint: nb,
                    ..
                },
            ) => {
                assert(oa =~= ob);
                crate::bytes::lemma_i32_bits_injective(ta, tb);
                crate::bytes::lemma_i32_bits_injective(pa, pb);
                crate::bytes::lemma_i32_bits_injective(na, nb);
                lemma_view_injective(qa, qb);
            },
            (Message::Cancel { order_id: oa, .. }, Message::Cancel { order_id: ob, .. }) => {
                assert(oa =~= ob);
            },
            _ => {},
        }
    }
}

/// The encoding of messages, taken from the front: the first message,
/// then the others.
pub proof fn lemma_messages_encoded_front(messages: Seq<SignedMessage>)
    requires
        messages.len() > 0,
    ensures
        messages_encoded(messages) == messages[0].encoded() + messages_encoded(messages.skip(1)),
    decreases messages.len(),
{
    if messages.len() == 1 {
        assert(messages.drop_last() =~= Seq::<SignedMessage>::empty());
        assert(messages.skip(1) =~= Seq::<SignedMessage>::empty());
        assert(messages_encoded(Seq::<SignedMessage>::empty()) =~= Seq::<u8>::empty());
        assert(messages.last() == messages[0]);
        assert(messages_encoded(messages) =~= messages[0].encoded());
        assert(messages[0].encoded() + messages_encoded(messages.skip(1))
            =~= messages[0].encoded());
    } else {
        lemma_messages_encoded_front(messages.drop_last());
        assert(messages.drop_last().skip(1) =~= messages.skip(1).drop_last());
        assert(messages.skip(1).last() == messages.last());
        assert(messages.drop_last()[0] == messages[0]);
        assert(messages_encoded(messages) =~= messages[0].encoded() + messages_encoded(
            messages.skip(1),
        ));
    }
}

/// Messages are found at the front of their own encoding, whatever follows.
pub proof fn lemma_messages_span(a: Seq<SignedMessage>, tail: Seq<u8>)
    ensures
        messages_span(messages_encoded(a) + tail, a.len()) == Some(messages_encoded(a).len()),
    decreases a.len(),
{
    if a.len() == 0 {
        assert(messages_encoded(a) + tail =~= tail);
    } else {
        lemma_messages_encoded_front(a);
        let first = a[0];
        let rest = a.skip(1);
        let after = messages_encoded(rest) + tail;
        lemma_message_roundtrip(first, first, after);
        let full = messages_encoded(a) + tail;
        assert(full =~= first.encoded() + after);
        assert((first.encoded() + after).len() == first.encoded().len() + after.len());
        assert(full.skip(first.encoded().len() as int) =~= after);
        lemma_messages_span(rest, tail);
        assert((first.encoded() + messages_encoded(rest)).len() == first.encoded().len()
            + messages_encoded(rest).len());
    }
}

/// Two lists of as many messages with the same encoding in front of
/// whatever follows are the same list, followed by the same bytes.
pub proof fn lemma_messages_injective(
    a: Seq<SignedMessage>,
    b: Seq<SignedMessage>,
    tail_a: Seq<u8>,
    tail_b: Seq<u8>,
)
    requires
        a.len() == b.len(),
        messages_encoded(a) + tail_a == messages_encoded(b) + tail_b,
    ensures
        a == b,
        tail_a == tail_b,
    decreases a.len(),
{
    if a.len() == 0 {
        assert(messages_encoded(a) + tail_a =~= tail_a);
        assert(messages_encoded(b) + tail_b =~= tail_b);
        assert(a =~= b);
    } else {
        lemma_messages_encoded_front(a);
        lemma_messages_encoded_front(b);
        let first = a[0];
        let other = b[0];
        let after = messages_encoded(a.skip(1)) + tail_a;
        let other_after = messages_encoded(b.skip(1)) + tail_b;
        let full = messages_encoded(a) + tail_a;
        assert(full =~= first.encoded() + after);
        assert(full =~= other.encoded() + other_after);
        lemma_message_roundtrip(first, other, after);
        lemma_message_roundtrip(other, first, other_after);
        assert(first.encoded().len() == other.encoded().len());
        lemma_concat_injective(first.encoded(), after, other.encoded(), other_after);
        lemma_messages_injective(a.skip(1), b.skip(1), tail_a, tail_b);
        assert(a =~= seq![first] + a.skip(1));
        assert(b =~= seq![other] + b.skip(1));
    }
}

/// An input is found at the front of its own encoding, whatever follows,
/// and two inputs with the same encoding in front of whatever follows
/// hold the same values.
pub proof fn lemma_guest_input_roundtrip(
    a: GuestInput,
    b: GuestInput,
    tail_a: Seq<u8>,
    tail_b: Seq<u8>,
)
    requires
        a.messages@.len() <= u32::MAX,
        b.messages@.len() <= u32::MAX,
    ensures
        GuestInput::span(a.encoded() + tail_a) == Some(a.encoded().len()),
        a.encoded() + tail_a == b.encoded() + tail_b ==> a.same_as(&b) && tail_a == tail_b,
{
    lemma_pow256_values();
    lemma_public_inputs_partial_roundtrip(a.public, b.public);
    lemma_public_inputs_partial_roundtrip(b.public, a.public);
    lemma_rules_roundtrip(a.rules, b.rules);
    lemma_rules_roundtrip(b.rules, a.rules);
    lemma_be_bytes_len(a.chain_id as nat, 8);
    lemma_be_bytes_len(b.chain_id as nat, 8);
    lemma_be_bytes_len(a.messages@.len(), 4);
    lemma_be_bytes_len(b.messages@.len(), 4);
    crate::bytes::lemma_be_value_of_bytes(a.chain_id as nat, 8);
    crate::bytes::lemma_be_value_of_bytes(b.chain_id as nat, 8);
    crate::bytes::lemma_be_value_of_bytes(a.messages@.len(), 4);
    crate::bytes::lemma_be_value_of_bytes(b.messages@.len(), 4);
    let full_a = a.encoded() + tail_a;
    let full_b = b.encoded() + tail_b;
    let body_a = messages_encoded(a.messages@) + tail_a;
    let body_b = messages_encoded(b.messages@) + tail_b;
    assert(full_a.subrange(0, 176) =~= a.public.encoded());
    assert(full_a.subrange(176, 184) =~= be_bytes(a.chain_id as nat, 8));
    assert(full_a.subrange(184, 216) =~= a.venue_id@);
    assert(full_a.subrange(216, 248) =~= a.market_id@);
    assert(full_a.subrange(248, 456) =~= a.rules.encoded());
    assert(full_a.subrange(456, 460) =~= be_bytes(a.messages@.len(), 4));
    assert(full_a.skip(460) =~= body_a);
    assert(full_b.subrange(0, 176) =~= b.public.encoded());
    assert(full_b.subrange(176, 184) =~= be_bytes(b.chain_id as nat, 8));
    assert(full_b.subrange(184, 216) =~= b.venue_id@);
    assert(full_b.subrange(216, 248) =~= b.market_id@);
    assert(full_b.subrange(248, 456) =~= b.rules.encoded());
    assert(full_b.subrange(456, 460) =~= be_bytes(b.messages@.len(), 4));
    assert(full_b.skip(460) =~= body_b);
    lemma_messages_span(a.messages@, tail_a);
    assert(a.encoded().len() == 460 + messages_encoded(a.messages@).len());
    if full_a == full_b {
        assert(a.venue_id =~= b.venue_id);
        assert(a.market_id =~= b.market_id);
        lemma_messages_injective(a.messages@, b.messages@, tail_a, tail_b);
    }
}

/// Where each part of a proof stands in its encoding.
pub proof fn lemma_proof_layout(p: Proof)
    requires
        proof_encodable(p),
    ensures
        proof_encoded(p).len() == 37 + p.value@.len() + 8192,
        proof_encoded(p).subrange(0, 32) == p.key@,
        proof_encoded(p)[32] == present_code(p.present),
        be_value(proof_encoded(p).subrange(33, 37)) == p.value@.len(),
        proof_encoded(p).subrange(37, 37 + p.value@.len() as int) == p.value@,
        proof_encoded(p).skip(37 + p.value@.len() as int) == joined(p.siblings@),
{
    lemma_pow256_values();
    lemma_joined_len(p.siblings@);
    lemma_be_bytes_len(p.value@.len(), 4);
    crate::bytes::lemma_be_value_of_bytes(p.value@.len(), 4);
    let e = proof_encoded(p);
    assert(e.subrange(0, 32) =~= p.key@);
    assert(e.subrange(33, 37) =~= be_bytes(p.value@.len(), 4));
    assert(e.subrange(37, 37 + p.value@.len() as int) =~= p.value@);
    assert(e.skip(37 + p.value@.len() as int) =~= joined(p.siblings@));
}

/// Two lists of as many hashes that join to the same bytes are the same list.
pub proof fn lemma_joined_injective(a: Seq<[u8; 32]>, b: Seq<[u8; 32]>)
    requires
        a.len() == b.len(),
        joined(a) == joined(b),
    ensures
        a == b,
    decreases a.len(),
{
    if a.len() == 0 {
        assert(a =~= b);
    } else {
        lemma_joined_len(a.drop_last());
        lemma_joined_len(b.drop_last());
        lemma_concat_injective(joined(a.drop_last()), a.last()@, joined(b.drop_last()), b.last()@);
        lemma_joined_injective(a.drop_last(), b.drop_last());
        assert(a.last() =~= b.last());
        assert(a =~= a.drop_last().push(a.last()));
        assert(b =~= b.drop_last().push(b.last()));
    }
}

/// Whether two proofs hold the same values.
pub open spec fn same_proof(a: Proof, b: Proof) -> bool {
    a.key == b.key && a.present == b.present && a.value@ == b.value@ && a.siblings@ == b.siblings@
}

/// Whether two lists hold, place by place, proofs with the same values.
pub open spec fn same_proofs(a: Seq<Proof>, b: Seq<Proof>) -> bool {
    a.len() == b.len() && forall|i: int| 0 <= i < a.len() ==> same_proof(#[trigger] a[i], b[i])
}

/// A proof is found at the front of its own encoding, whatever follows,
/// and two proofs with the same encoding in front of whatever follows hold
/// the same values.
pub proof fn lemma_proof_roundtrip(a: Proof, b: Proof, tail_a: Seq<u8>, tail_b: Seq<u8>)
    requires
        proof_encodable(a),
        proof_encodable(b),
    ensures
        proof_span(proof_encoded(a) + tail_a) == Some(proof_encoded(a).len()),
        proof_encoded(a) + tail_a == proof_encoded(b) + tail_b ==> same_proof(a, b) && tail_a
            == tail_b,
{
    lemma_proof_layout(a);
    lemma_proof_layout(b);
    let ea = proof_encoded(a);
    let eb = proof_encoded(b);
    let full_a = ea + tail_a;
    let full_b = eb + tail_b;
    assert(full_a.len() == ea.len() + tail_a.len());
    assert(full_a[32] == ea[32]);
    assert(full_a.subrange(33, 37) =~= ea.subrange(33, 37));
    assert(full_b.subrange(33, 37) =~= eb.subrange(33, 37));
    if full_a == full_b {
        assert(a.value@.len() == b.value@.len());
        assert(ea.len() == eb.len());
        lemma_concat_injective(ea, tail_a, eb, tail_b);
        assert(a.key =~= b.key);
        lemma_joined_injective(a.siblings@, b.siblings@);
    }
}

/// The encoding of proofs, taken from the front: the first proof, then
/// the others.
pub proof fn lemma_proofs_encoded_front(proofs: Seq<Proof>)
    requires
        proofs.len() > 0,
    ensures
        proofs_encoded(proofs) == proof_encoded(proofs[0]) + proofs_encoded(proofs.skip(1)),
    decreases proofs.len(),
{
    if proofs.len() == 1 {
        assert(proofs.drop_last() =~= Seq::<Proof>::empty());
        assert(proofs.skip(1) =~= Seq::<Proof>::empty());
        assert(proofs_encoded(Seq::<Proof>::empty()) =~= Seq::<u8>::empty());
        assert(proofs.last() == proofs[0]);
        assert(proofs_encoded(proofs) == proofs_encoded(proofs.drop_last()) + proof_encoded(
            proofs.last(),
        ));
        assert(proofs_encoded(proofs) =~= proof_encoded(proofs[0]));
        assert(proof_encoded(proofs[0]) + proofs_encoded(proofs.skip(1)) =~= proof_encoded(
            proofs[0],
        ));
    } else {
        lemma_proofs_encoded_front(proofs.drop_last());
        assert(proofs.drop_last().skip(1) =~= proofs.skip(1).drop_last());
        assert(proofs.skip(1).last() == proofs.last());
        assert(proofs.drop_last()[0] == proofs[0]);
        assert(proofs_encoded(proofs) =~= proof_encoded(proofs[0]) + proofs_encoded(
            proofs.skip(1),
        ));
    }
}

/// Proofs are found at the front of their own encoding, whatever follows,
/// and two lists of as many proofs with the same encoding in front of
/// whatever follows hold the same values.
pub proof fn lemma_proofs_roundtrip(
    a: Seq<Proof>,
    b: Seq<Proof>,
    tail_a: Seq<u8>,
    tail_b: Seq<u8>,
)
    requires
        forall|i: int| 0 <= i < a.len() ==> proof_encodable(#[trigger] a[i]),
        forall|i: int| 0 <= i < b.len() ==> proof_encodable(#[trigger] b[i]),
    ensures
        proofs_span(proofs_encoded(a) + tail_a, a.len()) == Some(proofs_encoded(a).len()),
        a.len() == b.len() && proofs_encoded(a) + tail_a == proofs_encoded(b) + tail_b
            ==> same_proofs(a, b) && tail_a == tail_b,
    decreases a.len(),
{
    if a.len() == 0 {
        assert(proofs_encoded(a) + tail_a =~= tail_a);
        if b.len() == 0 {
            assert(proofs_encoded(b) + tail_b =~= tail_b);
        }
    } else {
        lemma_proofs_encoded_front(a);
        let first = a[0];
        let rest = a.skip(1);
        let after = proofs_encoded(rest) + tail_a;
        lemma_proof_roundtrip(first, first, after, after);
        let full = proofs_encoded(a) + tail_a;
        assert(full =~= proof_encoded(first) + after);
        assert(full.skip(proof_encoded(first).len() as int) =~= after);
        assert forall|i: int| 0 <= i < rest.len() implies proof_encodable(#[trigger] rest[i]) by {
            assert(rest[i] == a[i + 1]);
        }
        lemma_proofs_roundtrip(rest, rest, tail_a, tail_a);
        assert(proofs_encoded(a).len() == proof_encoded(first).len() + proofs_encoded(rest).len());
        if a.len() == b.len() && proofs_encoded(a) + tail_a == proofs_encoded(b) + tail_b {
            lemma_proofs_encoded_front(b);
            let other = b[0];
            let other_rest = b.skip(1);
            let other_after = proofs_encoded(other_rest) + tail_b;
            assert(full =~= proof_encoded(other) + other_after);
            lemma_proof_roundtrip(first, other, after, other_after);
            assert forall|i: int| 0 <= i < other_rest.len() implies proof_encodable(
                #[trigger] other_rest[i],
            ) by {
                assert(other_rest[i] == b[i + 1]);
            }
            lemma_proofs_roundtrip(rest, other_rest, tail_a, tail_b);
            assert forall|i: int| 0 <= i < a.len() implies same_proof(#[trigger] a[i], b[i]) by {
                if i > 0 {
                    assert(a[i] == rest[i - 1]);
                    assert(b[i] == other_rest[i - 1]);
                }
            }
        }
    }
}

/// A bundle is found at the front of its own encoding, whatever follows,
/// and two bundles with the same encoding in front of whatever follows
/// hold the same values. With the contract of `GuestBundle::decode` this
/// says that decoding the encoding of a bundle gives the bundle back.
pub proof fn lemma_guest_bundle_roundtrip(
    a: GuestBundle,
    b: GuestBundle,
    tail_a: Seq<u8>,
    tail_b: Seq<u8>,
)
    requires
        a.encodable(),
        b.encodable(),
    ensures
        GuestBundle::span(a.encoded() + tail_a) == Some(a.encoded().len()),
        a.encoded() + tail_a == b.encoded() + tail_b ==> a.input.same_as(&b.input) && same_proofs(
            a.proofs@,
            b.proofs@,
        ) && tail_a == tail_b,
{
    let count_a = be_bytes(a.proofs@.len(), 4);
    let count_b = be_bytes(b.proofs@.len(), 4);
    let body_a = proofs_encoded(a.proofs@) + tail_a;
    let body_b = proofs_encoded(b.proofs@) + tail_b;
    let rest_a = count_a + body_a;
    let rest_b = count_b + body_b;
    let input_a = a.input.encoded();
    let input_b = b.input.encoded();
    let full_a = a.encoded() + tail_a;
    let full_b = b.encoded() + tail_b;
    lemma_pow256_values();
    lemma_be_bytes_len(a.proofs@.len(), 4);
    lemma_be_bytes_len(b.proofs@.len(), 4);
    crate::bytes::lemma_be_value_of_bytes(a.proofs@.len(), 4);
    crate::bytes::lemma_be_value_of_bytes(b.proofs@.len(), 4);
    assert(full_a =~= input_a + rest_a);
    assert(full_b =~= input_b + rest_b);
    lemma_guest_input_roundtrip(a.input, b.input, rest_a, rest_b);
    lemma_bundle_tail(input_a, count_a, body_a);
    lemma_proofs_roundtrip(a.proofs@, b.proofs@, tail_a, tail_b);
    assert(a.encoded().len() == input_a.len() + 4 + proofs_encoded(a.proofs@).len());
    assert((input_a + rest_a).len() == input_a.len() + rest_a.len());
    assert(rest_a.len() == 4 + body_a.len());
    if full_a == full_b {
        lemma_concat_injective(count_a, body_a, count_b, body_b);
    }
}

/// The parts of `input + count + body` when `count` is four bytes long.
proof fn lemma_bundle_tail(input: Seq<u8>, count: Seq<u8>, body: Seq<u8>)
    requires
        count.len() == 4,
    ensures
        (input + (count + body)).subrange(input.len() as int, input.len() as int + 4) == count,
        (input + (count + body)).skip(input.len() as int + 4) == body,
        (input + (count + body)).len() == input.len() + 4 + body.len(),
{
    let full = input + (count + body);
    assert(full.subrange(input.len() as int, input.len() as int + 4) =~= count);
    assert(full.skip(input.len() as int + 4) =~= body);
}

} // verus!
