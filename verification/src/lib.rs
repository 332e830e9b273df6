//! A codec for a tag-value financial messaging wire format.
//!
//! Inbound, a delimited ASCII byte stream is split into a tag-to-value
//! mapping, framed at its checksum field, and decoded into a typed,
//! validated message record. Outbound, per-message field tables are
//! assembled into a body, a header and a checksum trailer, yielding a
//! wire-ready byte sequence. Session concerns (transport I/O, sequence
//! tracking, retransmission) sit above this crate and are not part of it.

pub mod checksum;
pub mod decode;
pub mod errors;
pub mod fields;
pub mod messages;
pub mod num;
pub mod price;
pub mod serialize;
pub mod tags;

pub use checksum::get_checksum;
pub use decode::parse;
pub use errors::{FixError, FixErrorKind};
pub use fields::{get_or_fail, to_fix_hash, FieldMap};
pub use messages::{
    CancelOrder, CancelOrderAck, Fill, Heartbeat, Login, Logout, Message, NewOrder, NewOrderAck,
    OrderReject, ResendRequest, SequenceReset,
};
pub use serialize::{serialize, serialize_body, serialize_with_time};
