use vstd::prelude::*;

verus! {

/// Which side of the book an order rests on.
#[derive(Debug, Clone, Copy, PartialEq, Eq, Structural)]
pub enum Side {
    Bid,
    Ask,
}

/// Time in force: good-til-canceled rests its remainder, immediate-or-cancel drops it.
#[derive(Debug, Clone, Copy, PartialEq, Eq, Structural)]
pub enum Tif {
    Gtc,
    Ioc,
}

impl Side {
    /// The side an incoming order of this side trades against.
    pub fn opposite(self) -> (r: Side)
        ensures
            r == crate::book::opposite(self),
    {
        match self {
            Side::Bid => Side::Ask,
            Side::Ask => Side::Bid,
        }
    }
}

} // verus!

verus! {

/// An order as accepted by the engine. `qty` is the quantity still open:
/// on entry the submitted quantity, while resting what is left of it.
#[derive(Debug, Clone, Copy, PartialEq, Eq, Structural)]
pub struct Order {
    pub id: u64,
    pub cl_id: u64,
    pub side: Side,
    pub price: u64,
    pub qty: u64,
    pub timestamp: u64,
    pub tif: Tif,
}

/// The note carried by an acknowledgement.
#[derive(Debug, Clone, Copy, PartialEq, Eq, Structural)]
pub enum AckNote {
    Accepted,
    Canceled,
}

/// Why a command was refused.
#[derive(Debug, Clone, Copy, PartialEq, Eq, Structural)]
pub enum RejectReason {
    NotFound,
    Invalid,
    BadFrame,
    UnknownMsg,
}

/// What the engine (or the gateway, for protocol errors) reports.
#[derive(Debug, Clone, Copy, PartialEq, Eq, Structural)]
pub enum Event {
    Ack { ord_id: u64, note: AckNote },
    Reject { ord_id: u64, reason: RejectReason },
    Trade { price: u64, qty: u64, taker_cl_id: u64, maker_cl_id: u64 },
    BookDelta { side: Side, price: u64, level_qty: u64 },
    Pong,
}

/// A command handed to the engine. The reply sink travels beside it, outside the library.
#[derive(Debug, Clone, Copy, PartialEq, Eq, Structural)]
pub enum Command {
    Order(Order),
    Cancel { cl_id: u64, ord_id: u64 },
    Ping,
}

/// Where an engine output goes: back to the submitter, or to the market-data feed.
#[derive(Debug, Clone, Copy, PartialEq, Eq, Structural)]
pub enum Dest {
    Submitter,
    Market,
}

/// One output of the engine, addressed.
#[derive(Debug, Clone, Copy, PartialEq, Eq, Structural)]
pub struct Emit {
    pub dest: Dest,
    pub event: Event,
}

/// One execution against a resting order.
#[derive(Debug, Clone, Copy, PartialEq, Eq, Structural)]
pub struct Fill {
    pub price: u64,
    pub qty: u64,
    pub maker_id: u64,
    pub maker_cl_id: u64,
}

impl AckNote {
    /// The note's text, as UTF-8 bytes.
    pub fn text(self) -> (r: Vec<u8>)
        ensures
            r@ == ack_note_text(self),
    {
        match self {
            AckNote::Accepted => vec![111u8, 107u8],
            AckNote::Canceled => vec![99u8, 97u8, 110u8, 99u8, 101u8, 108u8, 101u8, 100u8],
        }
    }
}

impl RejectReason {
    /// The reason's text, as UTF-8 bytes.
    pub fn text(self) -> (r: Vec<u8>)
        ensures
            r@ == reject_reason_text(self),
    {
        match self {
            RejectReason::NotFound => vec![110u8, 111u8, 116u8, 95u8, 102u8, 111u8, 117u8, 110u8, 100u8],
            RejectReason::Invalid => vec![105u8, 110u8, 118u8, 97u8, 108u8, 105u8, 100u8],
            RejectReason::BadFrame => vec![98u8, 97u8, 100u8, 95u8, 102u8, 114u8, 97u8, 109u8, 101u8],
            RejectReason::UnknownMsg => vec![117u8, 110u8, 107u8, 110u8, 111u8, 119u8, 110u8, 95u8, 109u8, 115u8, 103u8],
        }
    }
}

/// "ok" and "canceled" in ASCII.
pub open spec fn ack_note_text(n: AckNote) -> Seq<u8> {
    match n {
        AckNote::Accepted => seq![111u8, 107u8],
        AckNote::Canceled => seq![99u8, 97u8, 110u8, 99u8, 101u8, 108u8, 101u8, 100u8],
    }
}

/// "not_found", "invalid", "bad_frame" and "unknown_msg" in ASCII.
pub open spec fn reject_reason_text(r: RejectReason) -> Seq<u8> {
    match r {
        RejectReason::NotFound => seq![110u8, 111u8, 116u8, 95u8, 102u8, 111u8, 117u8, 110u8, 100u8],
        RejectReason::Invalid => seq![105u8, 110u8, 118u8, 97u8, 108u8, 105u8, 100u8],
        RejectReason::BadFrame => seq![98u8, 97u8, 100u8, 95u8, 102u8, 114u8, 97u8, 109u8, 101u8],
        RejectReason::UnknownMsg => seq![117u8, 110u8, 107u8, 110u8, 111u8, 119u8, 110u8, 95u8, 109u8, 115u8, 103u8],
    }
}

} // verus!
