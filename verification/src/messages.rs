//! Typed message records and their constructors.
//!
//! Each constructor consumes a tag-to-value mapping and produces a
//! validated, immutable record, or the error naming the first missing
//! or invalid field it met. Unvalidated tags are dropped.

use vstd::prelude::*;

use crate::errors::{FixError, FixErrorKind};
use crate::fields::{get_or_fail, FieldMap};
use crate::num::{parse_i32, parse_u32, spec_parse_i32, spec_parse_u32, str_eq};
use crate::price::{parse_price, spec_parse_price};
use crate::tags;

verus! {

/// The missing-field error for a tag.
pub open spec fn missing(f: i32) -> FixError {
    FixError { kind: FixErrorKind::MissingField, field: f }
}

/// The invalid-format error for a tag.
pub open spec fn invalid(f: i32) -> FixError {
    FixError { kind: FixErrorKind::InvalidFormat, field: f }
}

/// An order entry: what a new-order message carries.
#[derive(Debug)]
pub struct NewOrder {
    pub symbol: String,
    pub clordid: String,
    pub price: i32,
    pub qty: i32,
    pub side: char,
}

/// Mathematical image of [`NewOrder`].
#[verifier::ext_equal]
pub struct SpecNewOrder {
    pub symbol: Seq<char>,
    pub clordid: Seq<char>,
    pub price: i32,
    pub qty: i32,
    pub side: char,
}

impl View for NewOrder {
    type V = SpecNewOrder;

    open spec fn view(&self) -> SpecNewOrder {
        SpecNewOrder {
            symbol: self.symbol@,
            clordid: self.clordid@,
            price: self.price,
            qty: self.qty,
            side: self.side,
        }
    }
}

/// What constructing a new order from a mapping yields: symbol, client
/// order id, price, side and quantity are all required; the price and
/// the quantity must parse; the side is buy exactly for the wire value
/// `1` and sell for anything else.
pub open spec fn spec_new_order(m: Map<int, Seq<char>>) -> Result<SpecNewOrder, FixError> {
    if !m.contains_key(55) {
        Err(missing(55))
    } else if !m.contains_key(11) {
        Err(missing(11))
    } else if !m.contains_key(44) {
        Err(missing(44))
    } else if spec_parse_price(m[44]) is None {
        Err(invalid(44))
    } else if !m.contains_key(54) {
        Err(missing(54))
    } else if !m.contains_key(38) {
        Err(missing(38))
    } else if spec_parse_i32(m[38]) is None {
        Err(invalid(38))
    } else {
        Ok(
            SpecNewOrder {
                symbol: m[55],
                clordid: m[11],
                price: spec_parse_price(m[44])->0,
                qty: spec_parse_i32(m[38])->0,
                side: if m[54] == seq!['1'] {
                    'B'
                } else {
                    'S'
                },
            },
        )
    }
}

impl NewOrder {
    /// Builds a new order from a field mapping, validating and
    /// converting each required field.
    pub fn new(m: &FieldMap) -> (r: Result<NewOrder, FixError>)
        requires
            m.wf(),
        ensures
            match r {
                Ok(o) => (spec_new_order(m.spec_map()) matches Ok(so) && o@ == so),
                Err(e) => (spec_new_order(m.spec_map()) matches Err(e2) && e == e2),
            },
    {
        let symbol = get_or_fail(m, tags::Symbol)?;
        let clordid = get_or_fail(m, tags::ClOrdId)?;
        let price_s = get_or_fail(m, tags::Price)?;
        let price: i32 = match parse_price(price_s.as_str()) {
            Some(p) => p,
            None => {
                return Err(FixError { kind: FixErrorKind::InvalidFormat, field: tags::Price });
            },
        };
        let side_s = get_or_fail(m, tags::Side)?;
        let side: char = if str_eq(side_s.as_str(), "1") {
            'B'
        } else {
            'S'
        };
        proof {
            reveal_strlit("1");
            assert("1"@ =~= seq!['1']);
        }
        let qty_s = get_or_fail(m, tags::OrderQty)?;
        let qty: i32 = match parse_i32(qty_s.as_str()) {
            Some(q) => q,
            None => {
                return Err(FixError { kind: FixErrorKind::InvalidFormat, field: tags::OrderQty });
            },
        };
        Ok(NewOrder { symbol, clordid, price, qty, side })
    }
}

/// A cancellation request referencing a prior order.
#[derive(Debug)]
pub struct CancelOrder {
    pub clordid: String,
    pub origclordid: String,
}

/// Mathematical image of [`CancelOrder`].
#[verifier::ext_equal]
pub struct SpecCancelOrder {
    pub clordid: Seq<char>,
    pub origclordid: Seq<char>,
}

impl View for CancelOrder {
    type V = SpecCancelOrder;

    open spec fn view(&self) -> SpecCancelOrder {
        SpecCancelOrder { clordid: self.clordid@, origclordid: self.origclordid@ }
    }
}

/// What constructing a cancel from a mapping yields: the client order
/// id and the original client order id are both required.
pub open spec fn spec_cancel_order(m: Map<int, Seq<char>>) -> Result<SpecCancelOrder, FixError> {
    if !m.contains_key(11) {
        Err(missing(11))
    } else if !m.contains_key(41) {
        Err(missing(41))
    } else {
        Ok(SpecCancelOrder { clordid: m[11], origclordid: m[41] })
    }
}

impl CancelOrder {
    /// Builds a cancel request from a field mapping.
    pub fn new(m: &FieldMap) -> (r: Result<CancelOrder, FixError>)
        requires
            m.wf(),
        ensures
            match r {
                Ok(o) => (spec_cancel_order(m.spec_map()) matches Ok(so) && o@ == so),
                Err(e) => (spec_cancel_order(m.spec_map()) matches Err(e2) && e == e2),
            },
    {
        let clordid = get_or_fail(m, tags::ClOrdId)?;
        let origclordid = get_or_fail(m, tags::OrigClOrdId)?;
        Ok(CancelOrder { clordid, origclordid })
    }
}

/// Acknowledgement of a new order; carries no validated fields.
#[derive(Debug)]
pub struct NewOrderAck {}

impl NewOrderAck {
    /// Builds an acknowledgement; no fields are required.
    pub fn new(_m: &FieldMap) -> (r: Result<NewOrderAck, FixError>)
        ensures
            r is Ok,
    {
        Ok(NewOrderAck {  })
    }
}

/// Acknowledgement of a cancel.
#[derive(Debug)]
pub struct CancelOrderAck {
    pub symbol: String,
    pub clorid: u64,
}

/// Mathematical image of [`CancelOrderAck`].
#[verifier::ext_equal]
pub struct SpecCancelOrderAck {
    pub symbol: Seq<char>,
    pub clorid: u64,
}

impl View for CancelOrderAck {
    type V = SpecCancelOrderAck;

    open spec fn view(&self) -> SpecCancelOrderAck {
        SpecCancelOrderAck { symbol: self.symbol@, clorid: self.clorid }
    }
}

/// Rejection of an order.
#[derive(Debug)]
pub struct OrderReject {
    pub symbol: String,
    pub clordid: String,
}

/// An execution report: a full or partial fill.
#[derive(Debug)]
pub struct Fill {
    pub symbol: String,
    pub clorid: String,
    pub exec_price: i32,
    pub exec_qty: i32,
    pub side: char,
    pub aggr_ind: char,
}

/// Mathematical image of [`Fill`].
#[verifier::ext_equal]
pub struct SpecFill {
    pub symbol: Seq<char>,
    pub clorid: Seq<char>,
    pub exec_price: i32,
    pub exec_qty: i32,
    pub side: char,
    pub aggr_ind: char,
}

impl View for Fill {
    type V = SpecFill;

    open spec fn view(&self) -> SpecFill {
        SpecFill {
            symbol: self.symbol@,
            clorid: self.clorid@,
            exec_price: self.exec_price,
            exec_qty: self.exec_qty,
            side: self.side,
            aggr_ind: self.aggr_ind,
        }
    }
}

/// What constructing a fill from a mapping yields: symbol, client
/// order id, last price, last shares and side are all required; the
/// price and the share count must parse. The aggressor indicator is
/// not derived from input.
pub open spec fn spec_fill(m: Map<int, Seq<char>>) -> Result<SpecFill, FixError> {
    if !m.contains_key(55) {
        Err(missing(55))
    } else if !m.contains_key(11) {
        Err(missing(11))
    } else if !m.contains_key(31) {
        Err(missing(31))
    } else if spec_parse_price(m[31]) is None {
        Err(invalid(31))
    } else if !m.contains_key(32) {
        Err(missing(32))
    } else if spec_parse_i32(m[32]) is None {
        Err(invalid(32))
    } else if !m.contains_key(54) {
        Err(missing(54))
    } else {
        Ok(
            SpecFill {
                symbol: m[55],
                clorid: m[11],
                exec_price: spec_parse_price(m[31])->0,
                exec_qty: spec_parse_i32(m[32])->0,
                side: if m[54] == seq!['1'] {
                    'B'
                } else {
                    'S'
                },
                aggr_ind: 'A',
            },
        )
    }
}

impl Fill {
    /// Builds a fill from a field mapping, validating and converting
    /// each required field.
    pub fn new(m: &FieldMap) -> (r: Result<Fill, FixError>)
        requires
            m.wf(),
        ensures
            match r {
                Ok(o) => (spec_fill(m.spec_map()) matches Ok(so) && o@ == so),
                Err(e) => (spec_fill(m.spec_map()) matches Err(e2) && e == e2),
            },
    {
        let symbol = get_or_fail(m, tags::Symbol)?;
        let clordid = get_or_fail(m, tags::ClOrdId)?;
        let px_s = get_or_fail(m, tags::LastPx)?;
        let exec_price: i32 = match parse_price(px_s.as_str()) {
            Some(p) => p,
            None => {
                return Err(FixError { kind: FixErrorKind::InvalidFormat, field: tags::LastPx });
            },
        };
        let qty_s = get_or_fail(m, tags::LastShares)?;
        let exec_qty: i32 = match parse_i32(qty_s.as_str()) {
            Some(q) => q,
            None => {
                return Err(
                    FixError { kind: FixErrorKind::InvalidFormat, field: tags::LastShares },
                );
            },
        };
        let side_s = get_or_fail(m, tags::Side)?;
        let side: char = if str_eq(side_s.as_str(), "1") {
            'B'
        } else {
            'S'
        };
        proof {
            reveal_strlit("1");
            assert("1"@ =~= seq!['1']);
        }
        Ok(
            Fill {
                symbol,
                clorid: clordid,
                exec_price,
                exec_qty,
                side,
                aggr_ind: 'A',
            },
        )
    }
}

/// A login announcing the counterparty identifiers and sequence number.
#[derive(Debug)]
pub struct Login {
    pub sendercompid: String,
    pub targetcompid: String,
    pub seqno: u32,
}

/// Mathematical image of [`Login`].
#[verifier::ext_equal]
pub struct SpecLogin {
    pub sendercompid: Seq<char>,
    pub targetcompid: Seq<char>,
    pub seqno: u32,
}

impl View for Login {
    type V = SpecLogin;

    open spec fn view(&self) -> SpecLogin {
        SpecLogin {
            sendercompid: self.sendercompid@,
            targetcompid: self.targetcompid@,
            seqno: self.seqno,
        }
    }
}

/// What constructing a login from a mapping yields: sender, target and
/// sequence number are all required, and the sequence number must
/// parse.
pub open spec fn spec_login(m: Map<int, Seq<char>>) -> Result<SpecLogin, FixError> {
    if !m.contains_key(49) {
        Err(missing(49))
    } else if !m.contains_key(56) {
        Err(missing(56))
    } else if !m.contains_key(34) {
        Err(missing(34))
    } else if spec_parse_u32(m[34]) is None {
        Err(invalid(34))
    } else {
        Ok(
            SpecLogin {
                sendercompid: m[49],
                targetcompid: m[56],
                seqno: spec_parse_u32(m[34])->0,
            },
        )
    }
}

impl Login {
    /// Builds a login from a field mapping; its three fields are
    /// required, and their absence is reported rather than tolerated.
    pub fn new(m: &FieldMap) -> (r: Result<Login, FixError>)
        requires
            m.wf(),
        ensures
            match r {
                Ok(o) => (spec_login(m.spec_map()) matches Ok(so) && o@ == so),
                Err(e) => (spec_login(m.spec_map()) matches Err(e2) && e == e2),
            },
    {
        let sendercompid = get_or_fail(m, tags::SenderCompID)?;
        let targetcompid = get_or_fail(m, tags::TargetCompID)?;
        let seq_s = get_or_fail(m, tags::MsgSeqNum)?;
        let seqno: u32 = match parse_u32(seq_s.as_str()) {
            Some(v) => v,
            None => {
                return Err(FixError { kind: FixErrorKind::InvalidFormat, field: tags::MsgSeqNum });
            },
        };
        Ok(Login { sendercompid, targetcompid, seqno })
    }
}

/// A logout; carries nothing.
#[derive(Debug)]
pub struct Logout;

/// A heartbeat; carries nothing.
#[derive(Debug)]
pub struct Heartbeat;

/// A request to resend messages up to a sequence number.
#[derive(Debug)]
pub struct ResendRequest {
    pub end_seqno: u32,
}

/// Mathematical image of [`ResendRequest`].
#[verifier::ext_equal]
pub struct SpecResendRequest {
    pub end_seqno: u32,
}

impl View for ResendRequest {
    type V = SpecResendRequest;

    open spec fn view(&self) -> SpecResendRequest {
        SpecResendRequest { end_seqno: self.end_seqno }
    }
}

/// What constructing a resend request from a mapping yields: the end
/// sequence number is required and must parse.
pub open spec fn spec_resend_request(m: Map<int, Seq<char>>) -> Result<
    SpecResendRequest,
    FixError,
> {
    if !m.contains_key(16) {
        Err(missing(16))
    } else if spec_parse_u32(m[16]) is None {
        Err(invalid(16))
    } else {
        Ok(SpecResendRequest { end_seqno: spec_parse_u32(m[16])->0 })
    }
}

impl ResendRequest {
    /// Builds a resend request from a field mapping.
    pub fn new(m: &FieldMap) -> (r: Result<ResendRequest, FixError>)
        requires
            m.wf(),
        ensures
            match r {
                Ok(o) => (spec_resend_request(m.spec_map()) matches Ok(so) && o@ == so),
                Err(e) => (spec_resend_request(m.spec_map()) matches Err(e2) && e == e2),
            },
    {
        let seq_s = get_or_fail(m, tags::EndSeqNo)?;
        let end_seqno: u32 = match parse_u32(seq_s.as_str()) {
            Some(v) => v,
            None => {
                return Err(FixError { kind: FixErrorKind::InvalidFormat, field: tags::EndSeqNo });
            },
        };
        Ok(ResendRequest { end_seqno })
    }
}

/// A sequence reset; its body fields are not validated on decode.
#[derive(Debug)]
pub struct SequenceReset;

/// The tagged union over every message kind the decoder can produce.
#[derive(Debug)]
pub enum Message {
    Login(Login),
    Heartbeat(Heartbeat),
    New(NewOrder),
    Cancel(CancelOrder),
    NewAck(NewOrderAck),
    CancelAck(CancelOrderAck),
    Fill(Fill),
    Logout(Logout),
    ResendRequest(ResendRequest),
    SequenceReset(SequenceReset),
}

/// Mathematical image of [`Message`].
#[verifier::ext_equal]
pub enum SpecMessage {
    Login(SpecLogin),
    Heartbeat,
    New(SpecNewOrder),
    Cancel(SpecCancelOrder),
    NewAck,
    CancelAck(SpecCancelOrderAck),
    Fill(SpecFill),
    Logout,
    ResendRequest(SpecResendRequest),
    SequenceReset,
}

impl View for Message {
    type V = SpecMessage;

    open spec fn view(&self) -> SpecMessage {
        match self {
            Message::Login(l) => SpecMessage::Login(l@),
            Message::Heartbeat(_) => SpecMessage::Heartbeat,
            Message::New(o) => SpecMessage::New(o@),
            Message::Cancel(c) => SpecMessage::Cancel(c@),
            Message::NewAck(_) => SpecMessage::NewAck,
            Message::CancelAck(a) => SpecMessage::CancelAck(a@),
            Message::Fill(f) => SpecMessage::Fill(f@),
            Message::Logout(_) => SpecMessage::Logout,
            Message::ResendRequest(r) => SpecMessage::ResendRequest(r@),
            Message::SequenceReset(_) => SpecMessage::SequenceReset,
        }
    }
}

} // verus!
