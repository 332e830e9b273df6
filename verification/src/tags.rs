//! Tag numbers of the wire format's fields.

#![allow(non_upper_case_globals)]

use vstd::prelude::*;

verus! {

pub const MsgType: i32 = 35;

pub const MsgSeqNum: i32 = 34;

pub const SenderCompID: i32 = 49;

pub const TargetCompID: i32 = 56;

pub const ExecType: i32 = 150;

pub const Symbol: i32 = 55;

pub const Price: i32 = 44;

pub const ClOrdId: i32 = 11;

pub const OrigClOrdId: i32 = 41;

pub const OrderID: i32 = 37;

pub const OrdStatus: i32 = 39;

pub const OrderQty: i32 = 38;

pub const Side: i32 = 54;

pub const ExecTransType: i32 = 20;

pub const LastPx: i32 = 31;

pub const LastShares: i32 = 32;

pub const LeavesQty: i32 = 151;

pub const ExecID: i32 = 17;

pub const BeginString: i32 = 8;

pub const BodyLength: i32 = 9;

pub const CheckSum: i32 = 10;

pub const Text: i32 = 58;

pub const EndSeqNo: i32 = 16;

pub const GapFillFlag: i32 = 123;

pub const NewSeqNo: i32 = 36;

} // verus!
