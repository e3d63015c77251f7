use vstd::prelude::*;

verus! {

/// Thirty-two zero bytes: the hash of an absent leaf and of an empty output tree.
pub const ZERO32: [u8; 32] = [0, 0, 0, 0, 0, 0, 0, 0, 0, 0, 0, 0, 0, 0, 0, 0, 0, 0, 0, 0, 0, 0, 0, 0, 0, 0, 0, 0, 0, 0, 0, 0];

/// The order id that stands for "no order".
pub const NONE_ORDER_ID: [u8; 32] = [0, 0, 0, 0, 0, 0, 0, 0, 0, 0, 0, 0, 0, 0, 0, 0, 0, 0, 0, 0, 0, 0, 0, 0, 0, 0, 0, 0, 0, 0, 0, 0];

/// The tick that stands for "no tick".
pub const NONE_TICK: i32 = i32::MIN;

/// The byte that separates a namespace label from the fields that follow it.
pub const KEY_SEPARATOR: u8 = 0x1f;

/// The ASCII label `NS_BAL`, padded with spaces to 32 bytes.
pub const NS_BAL: [u8; 32] = [78, 83, 95, 66, 65, 76, 32, 32, 32, 32, 32, 32, 32, 32, 32, 32, 32, 32, 32, 32, 32, 32, 32, 32, 32, 32, 32, 32, 32, 32, 32, 32];

/// The ASCII label `NS_NONCE`, padded with spaces to 32 bytes.
pub const NS_NONCE: [u8; 32] = [78, 83, 95, 78, 79, 78, 67, 69, 32, 32, 32, 32, 32, 32, 32, 32, 32, 32, 32, 32, 32, 32, 32, 32, 32, 32, 32, 32, 32, 32, 32, 32];

/// The ASCII label `NS_ORDER`, padded with spaces to 32 bytes.
pub const NS_ORDER: [u8; 32] = [78, 83, 95, 79, 82, 68, 69, 82, 32, 32, 32, 32, 32, 32, 32, 32, 32, 32, 32, 32, 32, 32, 32, 32, 32, 32, 32, 32, 32, 32, 32, 32];

/// The ASCII label `NS_ORDERNODE`, padded with spaces to 32 bytes.
pub const NS_ORDERNODE: [u8; 32] = [78, 83, 95, 79, 82, 68, 69, 82, 78, 79, 68, 69, 32, 32, 32, 32, 32, 32, 32, 32, 32, 32, 32, 32, 32, 32, 32, 32, 32, 32, 32, 32];

/// The ASCII label `NS_TICKNODE`, padded with spaces to 32 bytes.
pub const NS_TICKNODE: [u8; 32] = [78, 83, 95, 84, 73, 67, 75, 78, 79, 68, 69, 32, 32, 32, 32, 32, 32, 32, 32, 32, 32, 32, 32, 32, 32, 32, 32, 32, 32, 32, 32, 32];

/// The ASCII label `NS_MARKETBEST`, padded with spaces to 32 bytes.
pub const NS_MARKETBEST: [u8; 32] = [78, 83, 95, 77, 65, 82, 75, 69, 84, 66, 69, 83, 84, 32, 32, 32, 32, 32, 32, 32, 32, 32, 32, 32, 32, 32, 32, 32, 32, 32, 32, 32];

/// The ASCII label `NS_FEEVAULT`, padded with spaces to 32 bytes.
pub const NS_FEEVAULT: [u8; 32] = [78, 83, 95, 70, 69, 69, 86, 65, 85, 76, 84, 32, 32, 32, 32, 32, 32, 32, 32, 32, 32, 32, 32, 32, 32, 32, 32, 32, 32, 32, 32, 32];

/// The ASCII text `NUMO_SPOT_CLOB_V1`.
pub const DOMAIN_TAG: [u8; 17] = [78, 85, 77, 79, 95, 83, 80, 79, 84, 95, 67, 76, 79, 66, 95, 86, 49];

/// The ASCII text `BATCH_V1`.
pub const BATCH_TAG: [u8; 8] = [66, 65, 84, 67, 72, 95, 86, 49];

} // verus!
