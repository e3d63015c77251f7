use crate::bytes::array64;
use crate::bytes::array72;
use crate::bytes::array8;
use crate::bytes::be_bytes;
use crate::bytes::be_value;
use crate::bytes::i32_bits;
use crate::bytes::lemma_be_bytes_injective;
use crate::bytes::lemma_be_bytes_len;
use crate::bytes::lemma_be_bytes_of_value;
use crate::bytes::lemma_be_value_bound;
use crate::bytes::lemma_concat_injective;
use crate::bytes::lemma_i32_bits_injective;
use crate::bytes::lemma_i32_of_bits_roundtrip;
use crate::bytes::lemma_pow256_values;
use crate::encoding::Reader;
use crate::encoding::Writer;
use crate::errors::CoreError;
use crate::wide::lemma_view_injective;
pub use crate::wide::U256;
use vstd::prelude::*;

verus! {

/// The side of the book an order is on.
#[derive(Clone, Copy, Debug, PartialEq, Eq, Structural)]
pub enum Side {
    Buy,
    Sell,
}

impl Side {
    /// The byte that stands for the side: 0 for `Buy`, 1 for `Sell`.
    pub open spec fn code(self) -> u8 {
        match self {
            Side::Buy => 0,
            Side::Sell => 1,
        }
    }

    /// The other side of the book.
    pub open spec fn other(self) -> Side {
        match self {
            Side::Buy => Side::Sell,
            Side::Sell => Side::Buy,
        }
    }

    pub fn from_u8(value: u8) -> (r: Result<Self, CoreError>)
        ensures
            match r {
                Ok(side) => side.code() == value,
                Err(e) => e is Decode && value > 1,
            },
    {
        match value {
            0 => Ok(Side::Buy),
            1 => Ok(Side::Sell),
            _ => Err(CoreError::Decode("invalid side")),
        }
    }

    pub fn as_u8(self) -> (code: u8)
        ensures
            code == self.code(),
    {
        match self {
            Side::Buy => 0,
            Side::Sell => 1,
        }
    }

    pub fn opposite(self) -> (side: Self)
        ensures
            side == self.other(),
    {
        match self {
            Side::Buy => Side::Sell,
            Side::Sell => Side::Buy,
        }
    }
}

/// How long an order stays: until cancelled, or only for the match at hand.
#[derive(Clone, Copy, Debug, PartialEq, Eq, Structural)]
pub enum TimeInForce {
    Gtc,
    Ioc,
}

impl TimeInForce {
    /// The number that stands for the policy: 0 for `Gtc`, 1 for `Ioc`.
    pub open spec fn code(self) -> u32 {
        match self {
            TimeInForce::Gtc => 0,
            TimeInForce::Ioc => 1,
        }
    }

    pub fn from_u32(value: u32) -> (r: Result<Self, CoreError>)
        ensures
            match r {
                Ok(tif) => tif.code() == value,
                Err(e) => e is Decode && value > 1,
            },
    {
        match value {
            0 => Ok(TimeInForce::Gtc),
            1 => Ok(TimeInForce::Ioc),
            _ => Err(CoreError::Decode("invalid tif")),
        }
    }

    pub fn as_u32(self) -> (code: u32)
        ensures
            code == self.code(),
    {
        match self {
            TimeInForce::Gtc => 0,
            TimeInForce::Ioc => 1,
        }
    }
}

/// Where an order stands in its life.
#[derive(Clone, Copy, Debug, PartialEq, Eq, Structural)]
pub enum OrderStatus {
    Open,
    Filled,
    Canceled,
}

impl OrderStatus {
    /// The byte that stands for the status: 1 `Open`, 2 `Filled`, 3 `Canceled`.
    pub open spec fn code(self) -> u8 {
        match self {
            OrderStatus::Open => 1,
            OrderStatus::Filled => 2,
            OrderStatus::Canceled => 3,
        }
    }

    pub fn from_u8(value: u8) -> (r: Result<Self, CoreError>)
        ensures
            match r {
                Ok(status) => status.code() == value,
                Err(e) => e is Decode && (value == 0 || value > 3),
            },
    {
        match value {
            1 => Ok(OrderStatus::Open),
            2 => Ok(OrderStatus::Filled),
            3 => Ok(OrderStatus::Canceled),
            _ => Err(CoreError::Decode("invalid order status")),
        }
    }

    pub fn as_u8(self) -> (code: u8)
        ensures
            code == self.code(),
    {
        match self {
            OrderStatus::Open => 1,
            OrderStatus::Filled => 2,
            OrderStatus::Canceled => 3,
        }
    }
}

/// What an account holds of one asset: the part free to use and the part
/// locked under open orders.
#[derive(Clone, Copy, Debug, PartialEq, Eq)]
pub struct Balance {
    pub available: U256,
    pub locked: U256,
}

impl Balance {
    /// The balance that `bytes` encodes, if they encode one.
    pub open spec fn decoded(bytes: Seq<u8>) -> Option<Balance> {
        if exists|v: Balance| #[trigger] v.encoded() == bytes {
            Some(choose|v: Balance| #[trigger] v.encoded() == bytes)
        } else {
            None
        }
    }

    /// The 64 bytes of a balance: `available`, then `locked`.
    pub open spec fn encoded(self) -> Seq<u8> {
        be_bytes(self.available@, 32) + be_bytes(self.locked@, 32)
    }

    pub fn empty() -> (b: Self)
        ensures
            b.available@ == 0,
            b.locked@ == 0,
    {
        Self { available: U256::zero(), locked: U256::zero() }
    }

    pub fn encode(&self) -> (out: [u8; 64])
        ensures
            out@ == self.encoded(),
    {
        let mut w = Writer::new();
        w.write_u256(&self.available);
        w.write_u256(&self.locked);
        proof {
            lemma_be_bytes_len(self.available@, 32);
            lemma_be_bytes_len(self.locked@, 32);
            assert(w@ =~= self.encoded());
        }
        let v = w.into_bytes();
        array64(v.as_slice())
    }

    /// Succeeds exactly on 64 bytes, with the balance that they encode.
    pub fn decode(bytes: &[u8]) -> (r: Result<Self, CoreError>)
        ensures
            match r {
                Ok(b) => b.encoded() == bytes@ && Balance::decoded(bytes@) == Some(b),
                Err(e) => e is Decode && bytes@.len() != 64 && Balance::decoded(bytes@) is None,
            },
    {
        if bytes.len() != 64 {
            proof {
                lemma_balance_decoded(arbitrary(), bytes@);
            }
            return Err(CoreError::Decode("invalid balance length"));
        }
        let first = vstd::slice::slice_subrange(bytes, 0, 32);
        let second = vstd::slice::slice_subrange(bytes, 32, 64);
        let b = Self { available: U256::from_be_bytes(first), locked: U256::from_be_bytes(second) };
        proof {
            lemma_be_bytes_of_value(first@);
            lemma_be_bytes_of_value(second@);
            assert(b.encoded() =~= bytes@);
            lemma_balance_decoded(b, bytes@);
        }
        Ok(b)
    }
}

/// Two balances with the same bytes are the same balance, and the bytes of
/// a balance are always accepted by `Balance::decode`.
pub proof fn lemma_balance_roundtrip(a: Balance, b: Balance)
    ensures
        a.encoded().len() == 64,
        a.encoded() == b.encoded() ==> a == b,
{
    lemma_pow256_values();
    lemma_be_bytes_len(a.available@, 32);
    lemma_be_bytes_len(a.locked@, 32);
    lemma_be_bytes_len(b.available@, 32);
    lemma_be_bytes_len(b.locked@, 32);
    if a.encoded() == b.encoded() {
        lemma_concat_injective(
            be_bytes(a.available@, 32),
            be_bytes(a.locked@, 32),
            be_bytes(b.available@, 32),
            be_bytes(b.locked@, 32),
        );
        lemma_be_bytes_injective(a.available@, b.available@, 32);
        lemma_be_bytes_injective(a.locked@, b.locked@, 32);
        lemma_view_injective(a.available, b.available);
        lemma_view_injective(a.locked, b.locked);
    }
}

/// The bytes of a balance decode to it, and bytes that are not 64 long decode to nothing.
pub proof fn lemma_balance_decoded(v: Balance, bytes: Seq<u8>)
    ensures
        v.encoded() == bytes ==> Balance::decoded(bytes) == Some(v),
        bytes.len() != 64 ==> Balance::decoded(bytes) is None,
{
    if exists|w: Balance| #[trigger] w.encoded() == bytes {
        let w = choose|w: Balance| #[trigger] w.encoded() == bytes;
        lemma_balance_roundtrip(w, v);
    }
}

/// An order as it is stored.
#[derive(Clone, Copy, Debug, PartialEq, Eq)]
pub struct Order {
    pub owner: [u8; 20],
    pub side: Side,
    pub tick: i32,
    pub qty_remaining: U256,
    pub tif: TimeInForce,
    pub status: OrderStatus,
}

impl Order {
    /// The order that `bytes` encodes, if they encode one.
    pub open spec fn decoded(bytes: Seq<u8>) -> Option<Order> {
        if exists|v: Order| #[trigger] v.encoded() == bytes {
            Some(choose|v: Order| #[trigger] v.encoded() == bytes)
        } else {
            None
        }
    }

    /// The 62 bytes of an order: owner, side, tick, remaining quantity,
    /// time in force and status.
    pub open spec fn encoded(self) -> Seq<u8> {
        self.owner@ + seq![self.side.code()] + be_bytes(i32_bits(self.tick), 4) + be_bytes(
            self.qty_remaining@,
            32,
        ) + be_bytes(self.tif.code() as nat, 4) + seq![self.status.code()]
    }

    /// Whether `bytes` has the length of an order and valid codes for side,
    /// time in force and status.
    pub open spec fn well_formed(bytes: Seq<u8>) -> bool {
        &&& bytes.len() == 62
        &&& bytes[20] <= 1
        &&& be_value(bytes.subrange(57, 61)) <= 1
        &&& 1 <= bytes[61] <= 3
    }

    pub fn encode(&self) -> (out: Vec<u8>)
        ensures
            out@ == self.encoded(),
    {
        let mut w = Writer::new();
        w.write_addr(&self.owner);
        w.write_u8(self.side.as_u8());
        w.write_i32(self.tick);
        w.write_u256(&self.qty_remaining);
        w.write_u32(self.tif.as_u32());
        w.write_u8(self.status.as_u8());
        proof {
            assert(w@ =~= self.encoded());
        }
        w.into_bytes()
    }

    /// Succeeds exactly on well-formed bytes, with the order that they encode.
    pub fn decode(bytes: &[u8]) -> (r: Result<Self, CoreError>)
        ensures
            match r {
                Ok(order) => order.encoded() == bytes@ && Order::well_formed(bytes@)
                    && Order::decoded(bytes@) == Some(order),
                Err(e) => e is Decode && !Order::well_formed(bytes@) && Order::decoded(bytes@)
                    is None,
            },
    {
        proof {
            lemma_order_decoded(arbitrary(), bytes@);
        }
        if bytes.len() != 62 {
            return Err(CoreError::Decode("invalid order length"));
        }
        proof {
            let s = bytes@;
            assert(s.skip(20)[0] == s[20]);
            assert(s.skip(20).skip(1).take(4) =~= s.subrange(21, 25));
            assert(s.skip(20).skip(1).skip(4).take(32) =~= s.subrange(25, 57));
            assert(s.skip(20).skip(1).skip(4).skip(32).take(4) =~= s.subrange(57, 61));
            assert(s.skip(20).skip(1).skip(4).skip(32).skip(4)[0] == s[61]);
        }
        let mut r = Reader::new(bytes);
        let owner = r.read_addr()?;
        let side = Side::from_u8(r.read_u8()?)?;
        let tick = r.read_i32()?;
        let qty_remaining = r.read_u256()?;
        let tif = TimeInForce::from_u32(r.read_u32()?)?;
        let status = OrderStatus::from_u8(r.read_u8()?)?;
        let order = Self { owner, side, tick, qty_remaining, tif, status };
        proof {
            let s = bytes@;
            lemma_pow256_values();
            lemma_be_value_bound(s.subrange(21, 25));
            lemma_i32_of_bits_roundtrip(be_value(s.subrange(21, 25)));
            lemma_be_bytes_of_value(s.subrange(21, 25));
            lemma_be_bytes_of_value(s.subrange(25, 57));
            lemma_be_bytes_of_value(s.subrange(57, 61));
            assert(order.encoded() =~= s);
            lemma_order_decoded(order, s);
        }
        Ok(order)
    }
}

/// Two orders with the same bytes are the same order, and the bytes of an
/// order are always accepted by `Order::decode`.
pub proof fn lemma_order_roundtrip(a: Order, b: Order)
    ensures
        Order::well_formed(a.encoded()),
        a.encoded() == b.encoded() ==> a == b,
{
    lemma_pow256_values();
    lemma_be_bytes_len(i32_bits(a.tick), 4);
    lemma_be_bytes_len(a.qty_remaining@, 32);
    lemma_be_bytes_len(a.tif.code() as nat, 4);
    lemma_be_bytes_len(i32_bits(b.tick), 4);
    lemma_be_bytes_len(b.qty_remaining@, 32);
    lemma_be_bytes_len(b.tif.code() as nat, 4);
    let e = a.encoded();
    assert(e.subrange(57, 61) =~= be_bytes(a.tif.code() as nat, 4));
    crate::bytes::lemma_be_value_of_bytes(a.tif.code() as nat, 4);
    if a.encoded() == b.encoded() {
        let a5 = a.owner@ + seq![a.side.code()] + be_bytes(i32_bits(a.tick), 4) + be_bytes(
            a.qty_remaining@,
            32,
        ) + be_bytes(a.tif.code() as nat, 4);
        let b5 = b.owner@ + seq![b.side.code()] + be_bytes(i32_bits(b.tick), 4) + be_bytes(
            b.qty_remaining@,
            32,
        ) + be_bytes(b.tif.code() as nat, 4);
        lemma_concat_injective(a5, seq![a.status.code()], b5, seq![b.status.code()]);
        assert(seq![a.status.code()][0] == seq![b.status.code()][0]);
        let a4 = a.owner@ + seq![a.side.code()] + be_bytes(i32_bits(a.tick), 4) + be_bytes(
            a.qty_remaining@,
            32,
        );
        let b4 = b.owner@ + seq![b.side.code()] + be_bytes(i32_bits(b.tick), 4) + be_bytes(
            b.qty_remaining@,
            32,
        );
        lemma_concat_injective(
            a4,
            be_bytes(a.tif.code() as nat, 4),
            b4,
            be_bytes(b.tif.code() as nat, 4),
        );
        lemma_be_bytes_injective(a.tif.code() as nat, b.tif.code() as nat, 4);
        let a3 = a.owner@ + seq![a.side.code()] + be_bytes(i32_bits(a.tick), 4);
        let b3 = b.owner@ + seq![b.side.code()] + be_bytes(i32_bits(b.tick), 4);
        lemma_concat_injective(
            a3,
            be_bytes(a.qty_remaining@, 32),
            b3,
            be_bytes(b.qty_remaining@, 32),
        );
        lemma_be_bytes_injective(a.qty_remaining@, b.qty_remaining@, 32);
        lemma_view_injective(a.qty_remaining, b.qty_remaining);
        let a2 = a.owner@ + seq![a.side.code()];
        let b2 = b.owner@ + seq![b.side.code()];
        lemma_concat_injective(
            a2,
            be_bytes(i32_bits(a.tick), 4),
            b2,
            be_bytes(i32_bits(b.tick), 4),
        );
        lemma_be_bytes_injective(i32_bits(a.tick), i32_bits(b.tick), 4);
        lemma_i32_bits_injective(a.tick, b.tick);
        lemma_concat_injective(a.owner@, seq![a.side.code()], b.owner@, seq![b.side.code()]);
        assert(seq![a.side.code()][0] == seq![b.side.code()][0]);
        assert(a.owner =~= b.owner);
    }
}

/// The bytes of an order decode to it, and bytes that are not well formed decode to nothing.
pub proof fn lemma_order_decoded(v: Order, bytes: Seq<u8>)
    ensures
        v.encoded() == bytes ==> Order::decoded(bytes) == Some(v),
        !Order::well_formed(bytes) ==> Order::decoded(bytes) is None,
{
    if exists|w: Order| #[trigger] w.encoded() == bytes {
        let w = choose|w: Order| #[trigger] w.encoded() == bytes;
        lemma_order_roundtrip(w, v);
    }
}

/// The neighbours of an order in the queue of its tick.
#[derive(Clone, Copy, Debug, PartialEq, Eq)]
pub struct OrderNode {
    pub prev_order_id: [u8; 32],
    pub next_order_id: [u8; 32],
}

impl OrderNode {
    /// The order node that `bytes` encodes, if they encode one.
    pub open spec fn decoded(bytes: Seq<u8>) -> Option<OrderNode> {
        if exists|v: OrderNode| #[trigger] v.encoded() == bytes {
            Some(choose|v: OrderNode| #[trigger] v.encoded() == bytes)
        } else {
            None
        }
    }

    /// The 64 bytes of an order node: previous id, then next id.
    pub open spec fn encoded(self) -> Seq<u8> {
        self.prev_order_id@ + self.next_order_id@
    }

    pub fn encode(&self) -> (out: [u8; 64])
        ensures
            out@ == self.encoded(),
    {
        let mut w = Writer::new();
        w.write_b32(&self.prev_order_id);
        w.write_b32(&self.next_order_id);
        proof {
            assert(w@ =~= self.encoded());
        }
        let v = w.into_bytes();
        array64(v.as_slice())
    }

    /// Succeeds exactly on 64 bytes, with the node that they encode.
    pub fn decode(bytes: &[u8]) -> (r: Result<Self, CoreError>)
        ensures
            match r {
                Ok(node) => node.encoded() == bytes@ && OrderNode::decoded(bytes@) == Some(node),
                Err(e) => e is Decode && bytes@.len() != 64 && OrderNode::decoded(bytes@) is None,
            },
    {
        if bytes.len() != 64 {
            proof {
                lemma_order_node_decoded(arbitrary(), bytes@);
            }
            return Err(CoreError::Decode("invalid order node length"));
        }
        let node = Self {
            prev_order_id: crate::bytes::array32(vstd::slice::slice_subrange(bytes, 0, 32)),
            next_order_id: crate::bytes::array32(vstd::slice::slice_subrange(bytes, 32, 64)),
        };
        proof {
            assert(node.encoded() =~= bytes@);
            lemma_order_node_decoded(node, bytes@);
        }
        Ok(node)
    }
}

/// Two order nodes with the same bytes are the same node, and the bytes of
/// a node are always accepted by `OrderNode::decode`.
pub proof fn lemma_order_node_roundtrip(a: OrderNode, b: OrderNode)
    ensures
        a.encoded().len() == 64,
        a.encoded() == b.encoded() ==> a == b,
{
    if a.encoded() == b.encoded() {
        lemma_concat_injective(
            a.prev_order_id@,
            a.next_order_id@,
            b.prev_order_id@,
            b.next_order_id@,
        );
        assert(a.prev_order_id =~= b.prev_order_id);
        assert(a.next_order_id =~= b.next_order_id);
    }
}

/// The bytes of an order node decode to it, and bytes that are not 64 long decode to nothing.
pub proof fn lemma_order_node_decoded(v: OrderNode, bytes: Seq<u8>)
    ensures
        v.encoded() == bytes ==> OrderNode::decoded(bytes) == Some(v),
        bytes.len() != 64 ==> OrderNode::decoded(bytes) is None,
{
    if exists|w: OrderNode| #[trigger] w.encoded() == bytes {
        let w = choose|w: OrderNode| #[trigger] w.encoded() == bytes;
        lemma_order_node_roundtrip(w, v);
    }
}

/// A price level of one side: its neighbours in the list of levels and
/// the two ends of its queue of orders.
#[derive(Clone, Copy, Debug, PartialEq, Eq)]
pub struct TickNode {
    pub prev_tick: i32,
    pub next_tick: i32,
    pub head_order_id: [u8; 32],
    pub tail_order_id: [u8; 32],
}

impl TickNode {
    /// The tick node that `bytes` encodes, if they encode one.
    pub open spec fn decoded(bytes: Seq<u8>) -> Option<TickNode> {
        if exists|v: TickNode| #[trigger] v.encoded() == bytes {
            Some(choose|v: TickNode| #[trigger] v.encoded() == bytes)
        } else {
            None
        }
    }

    /// The 72 bytes of a tick node: previous tick, next tick, head id, tail id.
    pub open spec fn encoded(self) -> Seq<u8> {
        be_bytes(i32_bits(self.prev_tick), 4) + be_bytes(i32_bits(self.next_tick), 4)
            + self.head_order_id@ + self.tail_order_id@
    }

    pub fn encode(&self) -> (out: [u8; 72])
        ensures
            out@ == self.encoded(),
    {
        let mut w = Writer::new();
        w.write_i32(self.prev_tick);
        w.write_i32(self.next_tick);
        w.write_b32(&self.head_order_id);
        w.write_b32(&self.tail_order_id);
        proof {
            lemma_be_bytes_len(i32_bits(self.prev_tick), 4);
            lemma_be_bytes_len(i32_bits(self.next_tick), 4);
            assert(w@ =~= self.encoded());
        }
        let v = w.into_bytes();
        array72(v.as_slice())
    }

    /// Succeeds exactly on 72 bytes, with the node that they encode.
    pub fn decode(bytes: &[u8]) -> (r: Result<Self, CoreError>)
        ensures
            match r {
                Ok(node) => node.encoded() == bytes@ && TickNode::decoded(bytes@) == Some(node),
                Err(e) => e is Decode && bytes@.len() != 72 && TickNode::decoded(bytes@) is None,
            },
    {
        if bytes.len() != 72 {
            proof {
                lemma_tick_node_decoded(arbitrary(), bytes@);
            }
            return Err(CoreError::Decode("invalid tick node length"));
        }
        let mut r = Reader::new(bytes);
        let prev_tick = r.read_i32()?;
        let next_tick = r.read_i32()?;
        let head_order_id = r.read_b32()?;
        let tail_order_id = r.read_b32()?;
        let node = Self { prev_tick, next_tick, head_order_id, tail_order_id };
        proof {
            let s = bytes@;
            lemma_pow256_values();
            assert(s.take(4) =~= s.subrange(0, 4));
            assert(s.skip(4).take(4) =~= s.subrange(4, 8));
            assert(s.skip(4).skip(4).take(32) =~= s.subrange(8, 40));
            assert(s.skip(4).skip(4).skip(32).take(32) =~= s.subrange(40, 72));
            lemma_be_value_bound(s.subrange(0, 4));
            lemma_be_value_bound(s.subrange(4, 8));
            lemma_i32_of_bits_roundtrip(be_value(s.subrange(0, 4)));
            lemma_i32_of_bits_roundtrip(be_value(s.subrange(4, 8)));
            lemma_be_bytes_of_value(s.subrange(0, 4));
            lemma_be_bytes_of_value(s.subrange(4, 8));
            assert(node.encoded() =~= s);
            lemma_tick_node_decoded(node, s);
        }
        Ok(node)
    }
}

/// Two tick nodes with the same bytes are the same node, and the bytes of
/// a node are always accepted by `TickNode::decode`.
pub proof fn lemma_tick_node_roundtrip(a: TickNode, b: TickNode)
    ensures
        a.encoded().len() == 72,
        a.encoded() == b.encoded() ==> a == b,
{
    lemma_pow256_values();
    lemma_be_bytes_len(i32_bits(a.prev_tick), 4);
    lemma_be_bytes_len(i32_bits(a.next_tick), 4);
    lemma_be_bytes_len(i32_bits(b.prev_tick), 4);
    lemma_be_bytes_len(i32_bits(b.next_tick), 4);
    if a.encoded() == b.encoded() {
        let a3 = be_bytes(i32_bits(a.prev_tick), 4) + be_bytes(i32_bits(a.next_tick), 4)
            + a.head_order_id@;
        let b3 = be_bytes(i32_bits(b.prev_tick), 4) + be_bytes(i32_bits(b.next_tick), 4)
            + b.head_order_id@;
        lemma_concat_injective(a3, a.tail_order_id@, b3, b.tail_order_id@);
        let a2 = be_bytes(i32_bits(a.prev_tick), 4) + be_bytes(i32_bits(a.next_tick), 4);
        let b2 = be_bytes(i32_bits(b.prev_tick), 4) + be_bytes(i32_bits(b.next_tick), 4);
        lemma_concat_injective(a2, a.head_order_id@, b2, b.head_order_id@);
        lemma_concat_injective(
            be_bytes(i32_bits(a.prev_tick), 4),
            be_bytes(i32_bits(a.next_tick), 4),
            be_bytes(i32_bits(b.prev_tick), 4),
            be_bytes(i32_bits(b.next_tick), 4),
        );
        lemma_be_bytes_injective(i32_bits(a.prev_tick), i32_bits(b.prev_tick), 4);
        lemma_be_bytes_injective(i32_bits(a.next_tick), i32_bits(b.next_tick), 4);
        lemma_i32_bits_injective(a.prev_tick, b.prev_tick);
        lemma_i32_bits_injective(a.next_tick, b.next_tick);
        assert(a.head_order_id =~= b.head_order_id);
        assert(a.tail_order_id =~= b.tail_order_id);
    }
}

/// The bytes of a tick node decode to it, and bytes that are not 72 long decode to nothing.
pub proof fn lemma_tick_node_decoded(v: TickNode, bytes: Seq<u8>)
    ensures
        v.encoded() == bytes ==> TickNode::decoded(bytes) == Some(v),
        bytes.len() != 72 ==> TickNode::decoded(bytes) is None,
{
    if exists|w: TickNode| #[trigger] w.encoded() == bytes {
        let w = choose|w: TickNode| #[trigger] w.encoded() == bytes;
        lemma_tick_node_roundtrip(w, v);
    }
}

/// The best tick of each side of a market.
#[derive(Clone, Copy, Debug, PartialEq, Eq)]
pub struct MarketBest {
    pub best_bid: i32,
    pub best_ask: i32,
}

impl MarketBest {
    /// The record that `bytes` encodes, if they encode one.
    pub open spec fn decoded(bytes: Seq<u8>) -> Option<MarketBest> {
        if exists|v: MarketBest| #[trigger] v.encoded() == bytes {
            Some(choose|v: MarketBest| #[trigger] v.encoded() == bytes)
        } else {
            None
        }
    }

    /// The 8 bytes of the record: best bid, then best ask.
    pub open spec fn encoded(self) -> Seq<u8> {
        be_bytes(i32_bits(self.best_bid), 4) + be_bytes(i32_bits(self.best_ask), 4)
    }

    pub fn encode(&self) -> (out: [u8; 8])
        ensures
            out@ == self.encoded(),
    {
        let mut w = Writer::new();
        w.write_i32(self.best_bid);
        w.write_i32(self.best_ask);
        proof {
            lemma_be_bytes_len(i32_bits(self.best_bid), 4);
            lemma_be_bytes_len(i32_bits(self.best_ask), 4);
            assert(w@ =~= self.encoded());
        }
        let v = w.into_bytes();
        array8(v.as_slice())
    }

    /// Succeeds exactly on 8 bytes, with the record that they encode.
    pub fn decode(bytes: &[u8]) -> (r: Result<Self, CoreError>)
        ensures
            match r {
                Ok(best) => best.encoded() == bytes@ && MarketBest::decoded(bytes@) == Some(best),
                Err(e) => e is Decode && bytes@.len() != 8 && MarketBest::decoded(bytes@) is None,
            },
    {
        if bytes.len() != 8 {
            proof {
                lemma_market_best_decoded(arbitrary(), bytes@);
            }
            return Err(CoreError::Decode("invalid market best length"));
        }
        let mut r = Reader::new(bytes);
        let best_bid = r.read_i32()?;
        let best_ask = r.read_i32()?;
        let best = Self { best_bid, best_ask };
        proof {
            let s = bytes@;
            lemma_pow256_values();
            assert(s.take(4) =~= s.subrange(0, 4));
            assert(s.skip(4).take(4) =~= s.subrange(4, 8));
            lemma_be_value_bound(s.subrange(0, 4));
            lemma_be_value_bound(s.subrange(4, 8));
            lemma_i32_of_bits_roundtrip(be_value(s.subrange(0, 4)));
            lemma_i32_of_bits_roundtrip(be_value(s.subrange(4, 8)));
            lemma_be_bytes_of_value(s.subrange(0, 4));
            lemma_be_bytes_of_value(s.subrange(4, 8));
            assert(best.encoded() =~= s);
            lemma_market_best_decoded(best, s);
        }
        Ok(best)
    }
}

/// Two records with the same bytes are the same record, and the bytes of a
/// record are always accepted by `MarketBest::decode`.
pub proof fn lemma_market_best_roundtrip(a: MarketBest, b: MarketBest)
    ensures
        a.encoded().len() == 8,
        a.encoded() == b.encoded() ==> a == b,
{
    lemma_pow256_values();
    lemma_be_bytes_len(i32_bits(a.best_bid), 4);
    lemma_be_bytes_len(i32_bits(a.best_ask), 4);
    lemma_be_bytes_len(i32_bits(b.best_bid), 4);
    lemma_be_bytes_len(i32_bits(b.best_ask), 4);
    if a.encoded() == b.encoded() {
        lemma_concat_injective(
            be_bytes(i32_bits(a.best_bid), 4),
            be_bytes(i32_bits(a.best_ask), 4),
            be_bytes(i32_bits(b.best_bid), 4),
            be_bytes(i32_bits(b.best_ask), 4),
        );
        lemma_be_bytes_injective(i32_bits(a.best_bid), i32_bits(b.best_bid), 4);
        lemma_be_bytes_injective(i32_bits(a.best_ask), i32_bits(b.best_ask), 4);
        lemma_i32_bits_injective(a.best_bid, b.best_bid);
        lemma_i32_bits_injective(a.best_ask, b.best_ask);
    }
}

/// The bytes of a record decode to it, and bytes that are not 8 long decode to nothing.
pub proof fn lemma_market_best_decoded(v: MarketBest, bytes: Seq<u8>)
    ensures
        v.encoded() == bytes ==> MarketBest::decoded(bytes) == Some(v),
        bytes.len() != 8 ==> MarketBest::decoded(bytes) is None,
{
    if exists|w: MarketBest| #[trigger] w.encoded() == bytes {
        let w = choose|w: MarketBest| #[trigger] w.encoded() == bytes;
        lemma_market_best_roundtrip(w, v);
    }
}

/// The fees collected in one asset so far.
#[derive(Clone, Copy, Debug, PartialEq, Eq)]
pub struct FeeVault {
    pub total: U256,
}

impl FeeVault {
    /// The vault that `bytes` encodes, if they encode one.
    pub open spec fn decoded(bytes: Seq<u8>) -> Option<FeeVault> {
        if exists|v: FeeVault| #[trigger] v.encoded() == bytes {
            Some(choose|v: FeeVault| #[trigger] v.encoded() == bytes)
        } else {
            None
        }
    }

    /// The 32 bytes of the vault: its total.
    pub open spec fn encoded(self) -> Seq<u8> {
        be_bytes(self.total@, 32)
    }

    pub fn encode(&self) -> (out: [u8; 32])
        ensures
            out@ == self.encoded(),
    {
        self.total.to_be_bytes()
    }

    /// Succeeds exactly on 32 bytes, with the vault that they encode.
    pub fn decode(bytes: &[u8]) -> (r: Result<Self, CoreError>)
        ensures
            match r {
                Ok(vault) => vault.encoded() == bytes@ && FeeVault::decoded(bytes@) == Some(vault),
                Err(e) => e is Decode && bytes@.len() != 32 && FeeVault::decoded(bytes@) is None,
            },
    {
        if bytes.len() != 32 {
            proof {
                lemma_fee_vault_decoded(arbitrary(), bytes@);
            }
            return Err(CoreError::Decode("invalid fee vault length"));
        }
        let vault = Self { total: U256::from_be_bytes(bytes) };
        proof {
            lemma_be_bytes_of_value(bytes@);
            lemma_fee_vault_decoded(vault, bytes@);
        }
        Ok(vault)
    }
}

/// Two vaults with the same bytes are the same vault, and the bytes of a
/// vault are always accepted by `FeeVault::decode`.
pub proof fn lemma_fee_vault_roundtrip(a: FeeVault, b: FeeVault)
    ensures
        a.encoded().len() == 32,
        a.encoded() == b.encoded() ==> a == b,
{
    lemma_pow256_values();
    lemma_be_bytes_len(a.total@, 32);
    if a.encoded() == b.encoded() {
        lemma_be_bytes_injective(a.total@, b.total@, 32);
        lemma_view_injective(a.total, b.total);
    }
}

/// The bytes of a vault decode to it, and bytes that are not 32 long decode to nothing.
pub proof fn lemma_fee_vault_decoded(v: FeeVault, bytes: Seq<u8>)
    ensures
        v.encoded() == bytes ==> FeeVault::decoded(bytes) == Some(v),
        bytes.len() != 32 ==> FeeVault::decoded(bytes) is None,
{
    if exists|w: FeeVault| #[trigger] w.encoded() == bytes {
        let w = choose|w: FeeVault| #[trigger] w.encoded() == bytes;
        lemma_fee_vault_roundtrip(w, v);
    }
}

/// One fill: a resting order of the maker met by the incoming order of the taker.
#[derive(Clone, Copy, Debug, PartialEq, Eq)]
pub struct TradeRecord {
    pub market_id: [u8; 32],
    pub maker_order_id: [u8; 32],
    pub taker_order_id: [u8; 32],
    pub maker: [u8; 20],
    pub taker: [u8; 20],
    pub side_taker: Side,
    pub maker_tick: i32,
    pub qty_base: U256,
    pub quote_amt: U256,
    pub taker_fee_quote: U256,
}

impl TradeRecord {
    /// The 237 bytes of a trade, as they enter the root of the batch's trades.
    pub open spec fn encoded(self) -> Seq<u8> {
        self.market_id@ + self.maker_order_id@ + self.taker_order_id@ + self.maker@ + self.taker@
            + seq![self.side_taker.code()] + be_bytes(i32_bits(self.maker_tick), 4) + be_bytes(
            self.qty_base@,
            32,
        ) + be_bytes(self.quote_amt@, 32) + be_bytes(self.taker_fee_quote@, 32)
    }

    pub fn encode(&self) -> (out: Vec<u8>)
        ensures
            out@ == self.encoded(),
    {
        let mut w = Writer::new();
        w.write_b32(&self.market_id);
        w.write_b32(&self.maker_order_id);
        w.write_b32(&self.taker_order_id);
        w.write_addr(&self.maker);
        w.write_addr(&self.taker);
        w.write_u8(self.side_taker.as_u8());
        w.write_i32(self.maker_tick);
        w.write_u256(&self.qty_base);
        w.write_u256(&self.quote_amt);
        w.write_u256(&self.taker_fee_quote);
        proof {
            assert(w@ =~= self.encoded());
        }
        w.into_bytes()
    }
}

/// The fees that a batch collected in one asset.
#[derive(Clone, Copy, Debug, PartialEq, Eq)]
pub struct FeeTotal {
    pub asset_id: [u8; 32],
    pub total_fee: U256,
}

impl FeeTotal {
    /// The 64 bytes of a fee total: asset id, then the total.
    pub open spec fn encoded(self) -> Seq<u8> {
        self.asset_id@ + be_bytes(self.total_fee@, 32)
    }

    pub fn encode(&self) -> (out: Vec<u8>)
        ensures
            out@ == self.encoded(),
    {
        let mut w = Writer::new();
        w.write_b32(&self.asset_id);
        w.write_u256(&self.total_fee);
        w.into_bytes()
    }
}

} // verus!
