use vstd::prelude::*;
use vstd::slice::{slice_subrange, slice_to_vec};
use vstd::arithmetic::div_mod::lemma_fundamental_div_mod_converse;
use crate::types::{
    ack_note_text, reject_reason_text, AckNote, Command, Event, Order, RejectReason, Side, Tif,
};

verus! {

/// Message type of a ping.
pub const MSG_PING: u16 = 1;
/// Message type of a new order.
pub const MSG_NEW_ORDER: u16 = 10;
/// Message type of a cancel.
pub const MSG_CANCEL: u16 = 11;
/// Message type of an acknowledgement (and of a pong).
pub const MSG_ACK: u16 = 100;
/// Message type of a reject.
pub const MSG_REJECT: u16 = 101;
/// Message type of a trade report.
pub const MSG_TRADE: u16 = 102;
/// Message type of a level update.
pub const MSG_BOOK_DELTA: u16 = 103;

/// The little-endian 16-bit value at `at`.
pub open spec fn le16(b: Seq<u8>, at: int) -> int {
    b[at] + 256 * b[at + 1]
}

/// The little-endian 32-bit value at `at`.
pub open spec fn le32(b: Seq<u8>, at: int) -> int {
    le16(b, at) + 65536 * le16(b, at + 2)
}

/// The little-endian 64-bit value at `at`.
pub open spec fn le64(b: Seq<u8>, at: int) -> int {
    le32(b, at) + 4294967296 * le32(b, at + 4)
}

/// Little-endian bytes of a 16-bit value.
#[verifier::opaque]
pub open spec fn bytes16(x: int) -> Seq<u8> {
    seq![(x % 256) as u8, ((x / 256) % 256) as u8]
}

/// Little-endian bytes of a 32-bit value.
#[verifier::opaque]
pub open spec fn bytes32(x: int) -> Seq<u8> {
    bytes16(x % 65536) + bytes16(x / 65536)
}

/// Little-endian bytes of a 64-bit value.
#[verifier::opaque]
pub open spec fn bytes64(x: int) -> Seq<u8> {
    bytes32(x % 4294967296) + bytes32(x / 4294967296)
}

/// Lengths of the little-endian encodings.
pub proof fn lemma_bytes_len(x: int)
    ensures
        bytes16(x).len() == 2,
        bytes32(x).len() == 4,
        bytes64(x).len() == 8,
{
    reveal(bytes16);
    reveal(bytes32);
    reveal(bytes64);
}

/// The frame that carries `body` as a message of type `msg_type`:
/// `[u32 payload_len][u16 msg_type][u16 body_len][body]`, with `payload_len = 4 + body_len`.
pub open spec fn frame_bytes(msg_type: u16, body: Seq<u8>) -> Seq<u8> {
    bytes32(4 + body.len() as int) + bytes16(msg_type as int) + bytes16(body.len() as int) + body
}

/// The payload length announced by the buffer's first four bytes.
pub open spec fn payload_len(buf: Seq<u8>) -> int {
    le32(buf, 0)
}

/// The buffer holds a whole frame at its start.
pub open spec fn frame_ready(buf: Seq<u8>) -> bool {
    buf.len() >= 4 && buf.len() >= 4 + payload_len(buf)
}

/// The frame at the buffer's start is whole and its two lengths agree.
pub open spec fn frame_ok(buf: Seq<u8>) -> bool {
    &&& frame_ready(buf)
    &&& payload_len(buf) >= 4
    &&& le16(buf, 6) == payload_len(buf) - 4
}

/// What the decoder found at the start of a buffer.
#[derive(Debug, PartialEq, Eq)]
pub enum Decoded {
    /// A whole frame; `consumed` bytes of the buffer belong to it.
    Frame { msg_type: u16, body: Vec<u8>, consumed: usize },
    /// No whole frame yet: nothing is consumed.
    NeedMore,
    /// A whole frame whose lengths disagree; its `consumed` bytes are to be dropped.
    Malformed { consumed: usize },
}

fn read_u16(b: &[u8], at: usize) -> (r: u16)
    requires
        at + 2 <= b@.len(),
    ensures
        r == le16(b@, at as int),
{
    b[at] as u16 + (b[at + 1] as u16) * 256
}

fn read_u32(b: &[u8], at: usize) -> (r: u32)
    requires
        at + 4 <= b@.len(),
    ensures
        r == le32(b@, at as int),
{
    let n = b.len();
    assert(at + 4 <= n);
    let lo = read_u16(b, at) as u32;
    let hi = read_u16(b, at + 2) as u32;
    lo + hi * 65536
}

fn read_u64(b: &[u8], at: usize) -> (r: u64)
    requires
        at + 8 <= b@.len(),
    ensures
        r == le64(b@, at as int),
{
    let n = b.len();
    assert(at + 8 <= n);
    let lo = read_u32(b, at) as u64;
    let hi = read_u32(b, at + 4) as u64;
    lo + hi * 4294967296
}

fn push_u16(v: &mut Vec<u8>, x: u16)
    ensures
        final(v)@ == old(v)@ + bytes16(x as int),
{
    reveal(bytes16);
    v.push((x % 256) as u8);
    v.push((x / 256) as u8);
    proof {
        assert(final(v)@ =~= old(v)@ + bytes16(x as int));
    }
}

fn push_u32(v: &mut Vec<u8>, x: u32)
    ensures
        final(v)@ == old(v)@ + bytes32(x as int),
{
    reveal(bytes32);
    let lo = (x % 65536) as u16;
    let hi = (x / 65536) as u16;
    assert(lo as int == x as int % 65536);
    assert(hi as int == x as int / 65536);
    push_u16(v, lo);
    push_u16(v, hi);
    proof {
        assert(final(v)@ =~= old(v)@ + bytes32(x as int));
    }
}

fn push_u64(v: &mut Vec<u8>, x: u64)
    ensures
        final(v)@ == old(v)@ + bytes64(x as int),
{
    reveal(bytes64);
    let lo = (x % 4294967296) as u32;
    let hi = (x / 4294967296) as u32;
    assert(lo as int == x as int % 4294967296);
    assert(hi as int == x as int / 4294967296);
    push_u32(v, lo);
    push_u32(v, hi);
    proof {
        assert(final(v)@ =~= old(v)@ + bytes64(x as int));
    }
}

/// Builds the frame for a message of type `msg_type` with body `body`.
pub fn encode_frame(msg_type: u16, body: &[u8]) -> (r: Vec<u8>)
    requires
        body@.len() <= 0xffff,
    ensures
        r@ == frame_bytes(msg_type, body@),
{
    let mut out: Vec<u8> = Vec::new();
    push_u32(&mut out, (4 + body.len()) as u32);
    push_u16(&mut out, msg_type);
    push_u16(&mut out, body.len() as u16);
    let mut b = slice_to_vec(body);
    out.append(&mut b);
    out
}

/// Looks for a frame at the start of `buf`. Never consumes more than one frame.
pub fn decode_frame(buf: &[u8]) -> (r: Decoded)
    ensures
        !frame_ready(buf@) ==> r == Decoded::NeedMore,
        frame_ready(buf@) && !frame_ok(buf@) ==> r == (Decoded::Malformed { consumed: (4 + payload_len(buf@)) as usize }),
        frame_ok(buf@) ==> (r matches Decoded::Frame { msg_type, body, consumed } && msg_type == le16(buf@, 4)
            && consumed == 4 + payload_len(buf@) && body@ == buf@.subrange(8, consumed as int)),
{
    if buf.len() < 4 {
        return Decoded::NeedMore;
    }
    let pl = read_u32(buf, 0);
    if ((buf.len() - 4) as u64) < pl as u64 {
        return Decoded::NeedMore;
    }
    let consumed = 4 + pl as usize;
    if pl < 4 {
        return Decoded::Malformed { consumed };
    }
    let body_len = read_u16(buf, 6);
    if body_len as u32 != pl - 4 {
        return Decoded::Malformed { consumed };
    }
    let msg_type = read_u16(buf, 4);
    let body = slice_to_vec(slice_subrange(buf, 8, consumed));
    Decoded::Frame { msg_type, body, consumed }
}

/// The largest value of an `i64`: wire prices and quantities are signed.
pub open spec fn i64_max() -> int {
    0x7fff_ffff_ffff_ffffint
}

/// A reject raised by the gateway before a command reaches the engine.
pub open spec fn gateway_reject(ord_id: u64, reason: RejectReason) -> Event {
    Event::Reject { ord_id, reason }
}

/// The side encoded by a wire byte.
pub open spec fn side_of(b: u8) -> Side {
    if b == 0 { Side::Bid } else { Side::Ask }
}

/// The time in force encoded by a wire byte.
pub open spec fn tif_of(b: u8) -> Tif {
    if b == 0 { Tif::Gtc } else { Tif::Ioc }
}

/// The command carried by a message, or the reject that answers it. A new order
/// is stamped with `now_ms`.
pub open spec fn command_of(msg_type: u16, body: Seq<u8>, now_ms: u64) -> Result<Command, Event> {
    if msg_type == MSG_PING {
        if body.len() == 0 {
            Ok(Command::Ping)
        } else {
            Err(gateway_reject(0, RejectReason::BadFrame))
        }
    } else if msg_type == MSG_NEW_ORDER {
        if body.len() != 34 {
            Err(gateway_reject(0, RejectReason::BadFrame))
        } else {
            let id = le64(body, 8) as u64;
            if body[16] > 1 || body[33] > 1 || le64(body, 17) > i64_max() || le64(body, 25) > i64_max() {
                Err(gateway_reject(id, RejectReason::Invalid))
            } else {
                Ok(
                    Command::Order(
                        Order {
                            id,
                            cl_id: le64(body, 0) as u64,
                            side: side_of(body[16]),
                            price: le64(body, 17) as u64,
                            qty: le64(body, 25) as u64,
                            timestamp: now_ms,
                            tif: tif_of(body[33]),
                        },
                    ),
                )
            }
        }
    } else if msg_type == MSG_CANCEL {
        if body.len() != 16 {
            Err(gateway_reject(0, RejectReason::BadFrame))
        } else {
            Ok(Command::Cancel { cl_id: le64(body, 0) as u64, ord_id: le64(body, 8) as u64 })
        }
    } else {
        Err(gateway_reject(0, RejectReason::UnknownMsg))
    }
}

/// Turns a message into a command for the engine, or into the reject that answers it.
pub fn decode_command(msg_type: u16, body: &[u8], now_ms: u64) -> (r: Result<Command, Event>)
    ensures
        r == command_of(msg_type, body@, now_ms),
{
    if msg_type == MSG_PING {
        if body.len() == 0 {
            Ok(Command::Ping)
        } else {
            Err(Event::Reject { ord_id: 0, reason: RejectReason::BadFrame })
        }
    } else if msg_type == MSG_NEW_ORDER {
        if body.len() != 34 {
            return Err(Event::Reject { ord_id: 0, reason: RejectReason::BadFrame });
        }
        let cl_id = read_u64(body, 0);
        let id = read_u64(body, 8);
        let side = body[16];
        let price = read_u64(body, 17);
        let qty = read_u64(body, 25);
        let tif = body[33];
        if side > 1 || tif > 1 || price > 0x7fff_ffff_ffff_ffff || qty > 0x7fff_ffff_ffff_ffff {
            return Err(Event::Reject { ord_id: id, reason: RejectReason::Invalid });
        }
        Ok(
            Command::Order(
                Order {
                    id,
                    cl_id,
                    side: if side == 0 { Side::Bid } else { Side::Ask },
                    price,
                    qty,
                    timestamp: now_ms,
                    tif: if tif == 0 { Tif::Gtc } else { Tif::Ioc },
                },
            ),
        )
    } else if msg_type == MSG_CANCEL {
        if body.len() != 16 {
            return Err(Event::Reject { ord_id: 0, reason: RejectReason::BadFrame });
        }
        Ok(Command::Cancel { cl_id: read_u64(body, 0), ord_id: read_u64(body, 8) })
    } else {
        Err(Event::Reject { ord_id: 0, reason: RejectReason::UnknownMsg })
    }
}

/// The wire byte of a side.
pub open spec fn side_byte(s: Side) -> u8 {
    match s {
        Side::Bid => 0,
        Side::Ask => 1,
    }
}

/// The wire byte of a time in force.
pub open spec fn tif_byte(t: Tif) -> u8 {
    match t {
        Tif::Gtc => 0,
        Tif::Ioc => 1,
    }
}

/// The message type of a command.
pub open spec fn command_type(c: Command) -> u16 {
    match c {
        Command::Ping => MSG_PING,
        Command::Order(_) => MSG_NEW_ORDER,
        Command::Cancel { .. } => MSG_CANCEL,
    }
}

/// The body of a command's message.
pub open spec fn command_body(c: Command) -> Seq<u8> {
    match c {
        Command::Ping => Seq::empty(),
        Command::Order(o) => bytes64(o.cl_id as int) + bytes64(o.id as int) + seq![side_byte(o.side)]
            + bytes64(o.price as int) + bytes64(o.qty as int) + seq![tif_byte(o.tif)],
        Command::Cancel { cl_id, ord_id } => bytes64(cl_id as int) + bytes64(ord_id as int),
    }
}

/// A command can be sent: an order's price and quantity fit the signed wire fields.
pub open spec fn command_representable(c: Command) -> bool {
    match c {
        Command::Order(o) => o.price <= i64_max() && o.qty <= i64_max(),
        _ => true,
    }
}

/// The message type and body that carry a command, as a client sends it.
pub fn encode_command(c: &Command) -> (r: (u16, Vec<u8>))
    requires
        command_representable(*c),
    ensures
        r.0 == command_type(*c),
        r.1@ == command_body(*c),
{
    let mut body: Vec<u8> = Vec::new();
    match c {
        Command::Ping => (MSG_PING, body),
        Command::Order(o) => {
            push_u64(&mut body, o.cl_id);
            push_u64(&mut body, o.id);
            body.push(match o.side { Side::Bid => 0u8, Side::Ask => 1u8 });
            push_u64(&mut body, o.price);
            push_u64(&mut body, o.qty);
            body.push(match o.tif { Tif::Gtc => 0u8, Tif::Ioc => 1u8 });
            proof {
                assert(body@ =~= command_body(*c));
            }
            (MSG_NEW_ORDER, body)
        },
        Command::Cancel { cl_id, ord_id } => {
            push_u64(&mut body, *cl_id);
            push_u64(&mut body, *ord_id);
            proof {
                assert(body@ =~= command_body(*c));
            }
            (MSG_CANCEL, body)
        },
    }
}

/// The message type of an event.
pub open spec fn event_type(e: Event) -> u16 {
    match e {
        Event::Pong | Event::Ack { .. } => MSG_ACK,
        Event::Reject { .. } => MSG_REJECT,
        Event::Trade { .. } => MSG_TRADE,
        Event::BookDelta { .. } => MSG_BOOK_DELTA,
    }
}

/// The body of an event's message.
pub open spec fn event_body(e: Event) -> Seq<u8> {
    match e {
        Event::Pong => seq![112u8, 111u8, 110u8, 103u8],
        Event::Ack { ord_id, note } => bytes64(ord_id as int) + ack_note_text(note),
        Event::Reject { ord_id, reason } => bytes64(ord_id as int) + reject_reason_text(reason),
        Event::Trade { price, qty, taker_cl_id, maker_cl_id } => bytes64(price as int) + bytes64(qty as int)
            + bytes64(taker_cl_id as int) + bytes64(maker_cl_id as int),
        Event::BookDelta { side, price, level_qty } => seq![side_byte(side)] + bytes64(price as int) + bytes64(
            level_qty as int,
        ),
    }
}

fn id_text_body(ord_id: u64, text: Vec<u8>) -> (r: Vec<u8>)
    ensures
        r@ == bytes64(ord_id as int) + text@,
{
    let mut body: Vec<u8> = Vec::new();
    let mut t = text;
    push_u64(&mut body, ord_id);
    body.append(&mut t);
    body
}

fn trade_body(price: u64, qty: u64, taker_cl_id: u64, maker_cl_id: u64) -> (r: Vec<u8>)
    ensures
        r@ == bytes64(price as int) + bytes64(qty as int) + bytes64(taker_cl_id as int) + bytes64(maker_cl_id as int),
{
    let mut body: Vec<u8> = Vec::new();
    push_u64(&mut body, price);
    push_u64(&mut body, qty);
    push_u64(&mut body, taker_cl_id);
    push_u64(&mut body, maker_cl_id);
    body
}

fn delta_body(side: Side, price: u64, level_qty: u64) -> (r: Vec<u8>)
    ensures
        r@ == seq![side_byte(side)] + bytes64(price as int) + bytes64(level_qty as int),
{
    let mut body: Vec<u8> = Vec::new();
    body.push(match side { Side::Bid => 0u8, Side::Ask => 1u8 });
    push_u64(&mut body, price);
    push_u64(&mut body, level_qty);
    proof {
        assert(body@ =~= seq![side_byte(side)] + bytes64(price as int) + bytes64(level_qty as int));
    }
    body
}

/// The message type and body of an event.
fn event_body_exec(e: &Event) -> (r: (u16, Vec<u8>))
    ensures
        r.0 == event_type(*e),
        r.1@ == event_body(*e),
        r.1@.len() <= 40,
{
    proof {
        match e {
            Event::Ack { ord_id, .. } => lemma_bytes_len(*ord_id as int),
            Event::Reject { ord_id, .. } => lemma_bytes_len(*ord_id as int),
            Event::Trade { price, qty, taker_cl_id, maker_cl_id } => {
                lemma_bytes_len(*price as int);
                lemma_bytes_len(*qty as int);
                lemma_bytes_len(*taker_cl_id as int);
                lemma_bytes_len(*maker_cl_id as int);
            },
            Event::BookDelta { price, level_qty, .. } => {
                lemma_bytes_len(*price as int);
                lemma_bytes_len(*level_qty as int);
            },
            Event::Pong => {},
        }
    }
    match e {
        Event::Pong => (MSG_ACK, vec![112u8, 111u8, 110u8, 103u8]),
        Event::Ack { ord_id, note } => (MSG_ACK, id_text_body(*ord_id, note.text())),
        Event::Reject { ord_id, reason } => (MSG_REJECT, id_text_body(*ord_id, reason.text())),
        Event::Trade { price, qty, taker_cl_id, maker_cl_id } => (
            MSG_TRADE,
            trade_body(*price, *qty, *taker_cl_id, *maker_cl_id),
        ),
        Event::BookDelta { side, price, level_qty } => (MSG_BOOK_DELTA, delta_body(*side, *price, *level_qty)),
    }
}

/// The frame that carries an event to a client.
pub fn encode_event(e: &Event) -> (r: Vec<u8>)
    ensures
        r@ == frame_bytes(event_type(*e), event_body(*e)),
{
    let (msg_type, body) = event_body_exec(e);
    encode_frame(msg_type, body.as_slice())
}

/// Reading back little-endian bytes gives the value written, and writing back a
/// value read gives the bytes read.
pub proof fn lemma_le_bytes(b: Seq<u8>, at: int, x: int)
    requires
        0 <= at,
        at + 8 <= b.len(),
    ensures
        0 <= x < 0x1_0000 ==> le16(bytes16(x), 0) == x,
        0 <= x < 0x1_0000_0000 ==> le32(bytes32(x), 0) == x,
        0 <= x <= 0xffff_ffff_ffff_ffff ==> le64(bytes64(x), 0) == x,
        bytes16(le16(b, at)) == b.subrange(at, at + 2),
        bytes32(le32(b, at)) == b.subrange(at, at + 4),
        bytes64(le64(b, at)) == b.subrange(at, at + 8),
{
    lemma_le16(x);
    lemma_le32(x);
    lemma_le64(x);
    lemma_bytes16_of(b, at);
    lemma_bytes32_of(b, at);
    lemma_bytes64_of(b, at);
}

proof fn lemma_le16(x: int)
    ensures
        0 <= x < 0x1_0000 ==> le16(bytes16(x), 0) == x,
{
    reveal(bytes16);
}

proof fn lemma_split(x: int, d: int)
    requires
        0 <= x,
        0 < d,
    ensures
        x == x % d + d * (x / d),
        0 <= x % d < d,
        0 <= x / d,
        x < d * d ==> x / d < d,
{
    assert(x == x % d + d * (x / d) && 0 <= x % d < d && 0 <= x / d) by (nonlinear_arith)
        requires 0 <= x, 0 < d;
    if x < d * d {
        assert(x / d < d) by (nonlinear_arith)
            requires 0 <= x, 0 < d, x < d * d, x == x % d + d * (x / d), 0 <= x % d;
    }
}

proof fn lemma_le32(x: int)
    ensures
        0 <= x < 0x1_0000_0000 ==> le32(bytes32(x), 0) == x,
{
    reveal(bytes32);
    if 0 <= x < 0x1_0000_0000 {
        reveal(bytes16);
        lemma_split(x, 65536);
        lemma_le16(x % 65536);
        lemma_le16(x / 65536);
        let s = bytes32(x);
        assert(le16(s, 0) == le16(bytes16(x % 65536), 0));
        assert(le16(s, 2) == le16(bytes16(x / 65536), 0));
    }
}

proof fn lemma_le64(x: int)
    ensures
        0 <= x <= 0xffff_ffff_ffff_ffff ==> le64(bytes64(x), 0) == x,
{
    reveal(bytes64);
    if 0 <= x <= 0xffff_ffff_ffff_ffff {
        let lo = x % 4294967296;
        let hi = x / 4294967296;
        lemma_split(x, 4294967296);
        lemma_le32(lo);
        lemma_le32(hi);
        let s = bytes64(x);
        lemma_bytes_len(lo);
        lemma_bytes_len(hi);
        assert(s.subrange(0, 4) =~= bytes32(lo));
        assert(s.subrange(4, 8) =~= bytes32(hi));
        assert(le32(s, 0) == le32(s.subrange(0, 4), 0));
        assert(le32(s, 4) == le32(s.subrange(4, 8), 0));
    }
}

proof fn lemma_bytes16_of(b: Seq<u8>, at: int)
    requires
        0 <= at,
        at + 2 <= b.len(),
    ensures
        bytes16(le16(b, at)) == b.subrange(at, at + 2),
        0 <= le16(b, at) < 0x1_0000,
{
    reveal(bytes16);
    let x = b[at] + 256 * b[at + 1];
    assert(x % 256 == b[at] && (x / 256) % 256 == b[at + 1]);
    assert(bytes16(le16(b, at)) =~= b.subrange(at, at + 2));
}

proof fn lemma_bytes32_of(b: Seq<u8>, at: int)
    requires
        0 <= at,
        at + 4 <= b.len(),
    ensures
        bytes32(le32(b, at)) == b.subrange(at, at + 4),
        0 <= le32(b, at) < 0x1_0000_0000,
{
    reveal(bytes32);
    lemma_bytes16_of(b, at);
    lemma_bytes16_of(b, at + 2);
    let l0 = le16(b, at);
    let l1 = le16(b, at + 2);
    lemma_fundamental_div_mod_converse(l0 + 65536 * l1, 65536, l1, l0);
    assert(bytes32(le32(b, at)) =~= b.subrange(at, at + 4));
}

proof fn lemma_bytes64_of(b: Seq<u8>, at: int)
    requires
        0 <= at,
        at + 8 <= b.len(),
    ensures
        bytes64(le64(b, at)) == b.subrange(at, at + 8),
{
    reveal(bytes64);
    lemma_bytes32_of(b, at);
    lemma_bytes32_of(b, at + 4);
    let w0 = le32(b, at);
    let w1 = le32(b, at + 4);
    lemma_fundamental_div_mod_converse(w0 + 4294967296 * w1, 4294967296, w1, w0);
    assert(bytes64(le64(b, at)) =~= b.subrange(at, at + 8));
}

/// The 64-bit value read at `at` is that of the eight bytes there.
proof fn lemma_le64_at(b: Seq<u8>, at: int, x: u64)
    requires
        0 <= at,
        at + 8 <= b.len(),
        b.subrange(at, at + 8) == bytes64(x as int),
    ensures
        le64(b, at) == x,
{
    lemma_le64(x as int);
    let s = b.subrange(at, at + 8);
    lemma_bytes_len(x as int);
    assert(le64(b, at) == le64(s, 0));
}

/// Decoding an encoded frame gives back its message type and body, and the frame
/// is consumed whole.
pub proof fn lemma_frame_decode_encode(msg_type: u16, body: Seq<u8>)
    requires
        body.len() <= 0xffff,
    ensures
        ({
            let f = frame_bytes(msg_type, body);
            &&& frame_ok(f)
            &&& le16(f, 4) == msg_type
            &&& 4 + payload_len(f) == f.len()
            &&& f.subrange(8, f.len() as int) == body
        }),
{
    let f = frame_bytes(msg_type, body);
    lemma_bytes_len(4 + body.len() as int);
    lemma_bytes_len(msg_type as int);
    lemma_bytes_len(body.len() as int);
    let pad = seq![0u8, 0u8, 0u8, 0u8, 0u8, 0u8, 0u8, 0u8];
    let n: int = 4 + body.len() as int;
    lemma_le_bytes(pad, 0, n);
    lemma_le_bytes(pad, 0, msg_type as int);
    lemma_le_bytes(pad, 0, body.len() as int);
    assert(f.subrange(0, 4) =~= bytes32(n));
    assert(f.subrange(4, 6) =~= bytes16(msg_type as int));
    assert(f.subrange(6, 8) =~= bytes16(body.len() as int));
    assert(le32(f, 0) == le32(bytes32(n), 0));
    assert(le16(f, 4) == le16(bytes16(msg_type as int), 0));
    assert(le16(f, 6) == le16(bytes16(body.len() as int), 0));
    assert(f.subrange(8, f.len() as int) =~= body);
}

/// Encoding the message of a well-formed frame gives back the frame.
pub proof fn lemma_frame_encode_decode(buf: Seq<u8>)
    requires
        frame_ok(buf),
        buf.len() == 4 + payload_len(buf),
    ensures
        frame_bytes(le16(buf, 4) as u16, buf.subrange(8, buf.len() as int)) == buf,
{
    lemma_le_bytes(buf, 0, 0);
    lemma_bytes16_of(buf, 4);
    lemma_bytes16_of(buf, 6);
    let body = buf.subrange(8, buf.len() as int);
    lemma_bytes_len(le32(buf, 0));
    lemma_bytes_len(le16(buf, 4));
    lemma_bytes_len(le16(buf, 6));
    assert(frame_bytes(le16(buf, 4) as u16, body) =~= buf.subrange(0, 4) + buf.subrange(4, 6) + buf.subrange(6, 8) + body);
    assert(buf.subrange(0, 4) + buf.subrange(4, 6) + buf.subrange(6, 8) + body =~= buf);
}

/// Decoding the message of a command gives back the command (an order's time stamp
/// is the decoder's clock, which the wire does not carry).
proof fn lemma_order_body(o: Order)
    ensures
        ({
            let body = command_body(Command::Order(o));
            &&& body.len() == 34
            &&& le64(body, 0) == o.cl_id
            &&& le64(body, 8) == o.id
            &&& le64(body, 17) == o.price
            &&& le64(body, 25) == o.qty
            &&& body[16] == side_byte(o.side)
            &&& body[33] == tif_byte(o.tif)
        }),
{
    let body = command_body(Command::Order(o));
    lemma_bytes_len(o.cl_id as int);
    lemma_bytes_len(o.id as int);
    lemma_bytes_len(o.price as int);
    lemma_bytes_len(o.qty as int);
    assert(body.subrange(0, 8) =~= bytes64(o.cl_id as int));
    assert(body.subrange(8, 16) =~= bytes64(o.id as int));
    assert(body.subrange(17, 25) =~= bytes64(o.price as int));
    assert(body.subrange(25, 33) =~= bytes64(o.qty as int));
    lemma_le64_at(body, 0, o.cl_id);
    lemma_le64_at(body, 8, o.id);
    lemma_le64_at(body, 17, o.price);
    lemma_le64_at(body, 25, o.qty);
}

pub proof fn lemma_command_decode_encode(c: Command, now_ms: u64)
    requires
        command_representable(c),
        c matches Command::Order(o) ==> o.timestamp == now_ms,
    ensures
        command_of(command_type(c), command_body(c), now_ms) == Ok::<Command, Event>(c),
{
    let body = command_body(c);
    match c {
        Command::Ping => {},
        Command::Order(o) => {
            lemma_order_body(o);
            let d = command_of(MSG_NEW_ORDER, body, now_ms);
            assert(side_of(side_byte(o.side)) == o.side);
            assert(tif_of(tif_byte(o.tif)) == o.tif);
            assert(d == Ok::<Command, Event>(Command::Order(o)));
        },
        Command::Cancel { cl_id, ord_id } => {
            lemma_bytes_len(cl_id as int);
            lemma_bytes_len(ord_id as int);
            assert(body.subrange(0, 8) =~= bytes64(cl_id as int));
            assert(body.subrange(8, 16) =~= bytes64(ord_id as int));
            lemma_le64_at(body, 0, cl_id);
            lemma_le64_at(body, 8, ord_id);
        },
    }
}

/// The event carried by a message from the engine, if it is one.
pub open spec fn event_of(msg_type: u16, body: Seq<u8>) -> Option<Event> {
    if msg_type == MSG_ACK {
        if body == event_body(Event::Pong) {
            Some(Event::Pong)
        } else if body.len() >= 8 && body.subrange(8, body.len() as int) == ack_note_text(AckNote::Accepted) {
            Some(Event::Ack { ord_id: le64(body, 0) as u64, note: AckNote::Accepted })
        } else if body.len() >= 8 && body.subrange(8, body.len() as int) == ack_note_text(AckNote::Canceled) {
            Some(Event::Ack { ord_id: le64(body, 0) as u64, note: AckNote::Canceled })
        } else {
            None
        }
    } else if msg_type == MSG_REJECT {
        if body.len() < 8 {
            None
        } else {
            let text = body.subrange(8, body.len() as int);
            let ord_id = le64(body, 0) as u64;
            if text == reject_reason_text(RejectReason::NotFound) {
                Some(Event::Reject { ord_id, reason: RejectReason::NotFound })
            } else if text == reject_reason_text(RejectReason::Invalid) {
                Some(Event::Reject { ord_id, reason: RejectReason::Invalid })
            } else if text == reject_reason_text(RejectReason::BadFrame) {
                Some(Event::Reject { ord_id, reason: RejectReason::BadFrame })
            } else if text == reject_reason_text(RejectReason::UnknownMsg) {
                Some(Event::Reject { ord_id, reason: RejectReason::UnknownMsg })
            } else {
                None
            }
        }
    } else if msg_type == MSG_TRADE {
        if body.len() == 32 {
            Some(
                Event::Trade {
                    price: le64(body, 0) as u64,
                    qty: le64(body, 8) as u64,
                    taker_cl_id: le64(body, 16) as u64,
                    maker_cl_id: le64(body, 24) as u64,
                },
            )
        } else {
            None
        }
    } else if msg_type == MSG_BOOK_DELTA {
        if body.len() == 17 && body[0] <= 1 {
            Some(Event::BookDelta { side: side_of(body[0]), price: le64(body, 1) as u64, level_qty: le64(body, 9) as u64 })
        } else {
            None
        }
    } else {
        None
    }
}

/// Whether the bytes of `a` from `start` on are exactly `t`.
fn tail_is(a: &[u8], start: usize, t: &Vec<u8>) -> (r: bool)
    requires
        start <= a@.len(),
    ensures
        r == (a@.subrange(start as int, a@.len() as int) == t@),
{
    if a.len() - start != t.len() {
        return false;
    }
    let n = a.len();
    let mut i: usize = 0;
    while i < t.len()
        invariant
            n == a@.len(),
            start <= n,
            a@.len() - start == t@.len(),
            i <= t@.len(),
            forall|j: int| 0 <= j < i ==> a@[start + j] == t@[j],
        decreases t@.len() - i,
    {
        if a[start + i] != t[i] {
            proof {
                assert(a@.subrange(start as int, a@.len() as int)[i as int] != t@[i as int]);
            }
            return false;
        }
        i = i + 1;
    }
    proof {
        assert(a@.subrange(start as int, a@.len() as int) =~= t@);
    }
    true
}

/// Reads an event back from a message that the engine sent, as a client does.
pub fn decode_event(msg_type: u16, body: &[u8]) -> (r: Option<Event>)
    ensures
        r == event_of(msg_type, body@),
{
    if msg_type == MSG_ACK {
        let pong: Vec<u8> = vec![112u8, 111u8, 110u8, 103u8];
        if tail_is(body, 0, &pong) {
            proof {
                assert(body@.subrange(0, body@.len() as int) =~= body@);
            }
            return Some(Event::Pong);
        }
        proof {
            assert(body@.subrange(0, body@.len() as int) =~= body@);
        }
        if body.len() < 8 {
            return None;
        }
        let ord_id = read_u64(body, 0);
        if tail_is(body, 8, &AckNote::Accepted.text()) {
            Some(Event::Ack { ord_id, note: AckNote::Accepted })
        } else if tail_is(body, 8, &AckNote::Canceled.text()) {
            Some(Event::Ack { ord_id, note: AckNote::Canceled })
        } else {
            None
        }
    } else if msg_type == MSG_REJECT {
        if body.len() < 8 {
            return None;
        }
        let ord_id = read_u64(body, 0);
        if tail_is(body, 8, &RejectReason::NotFound.text()) {
            Some(Event::Reject { ord_id, reason: RejectReason::NotFound })
        } else if tail_is(body, 8, &RejectReason::Invalid.text()) {
            Some(Event::Reject { ord_id, reason: RejectReason::Invalid })
        } else if tail_is(body, 8, &RejectReason::BadFrame.text()) {
            Some(Event::Reject { ord_id, reason: RejectReason::BadFrame })
        } else if tail_is(body, 8, &RejectReason::UnknownMsg.text()) {
            Some(Event::Reject { ord_id, reason: RejectReason::UnknownMsg })
        } else {
            None
        }
    } else if msg_type == MSG_TRADE {
        if body.len() != 32 {
            return None;
        }
        Some(
            Event::Trade {
                price: read_u64(body, 0),
                qty: read_u64(body, 8),
                taker_cl_id: read_u64(body, 16),
                maker_cl_id: read_u64(body, 24),
            },
        )
    } else if msg_type == MSG_BOOK_DELTA {
        if body.len() != 17 || body[0] > 1 {
            return None;
        }
        Some(
            Event::BookDelta {
                side: if body[0] == 0 { Side::Bid } else { Side::Ask },
                price: read_u64(body, 1),
                level_qty: read_u64(body, 9),
            },
        )
    } else {
        None
    }
}

proof fn lemma_text_lengths()
    ensures
        ack_note_text(AckNote::Accepted).len() == 2,
        ack_note_text(AckNote::Canceled).len() == 8,
        reject_reason_text(RejectReason::NotFound).len() == 9,
        reject_reason_text(RejectReason::Invalid).len() == 7,
        reject_reason_text(RejectReason::BadFrame).len() == 9,
        reject_reason_text(RejectReason::UnknownMsg).len() == 11,
        reject_reason_text(RejectReason::NotFound)[0] != reject_reason_text(RejectReason::BadFrame)[0],
{
}

proof fn lemma_id_text_round_trip(ord_id: u64, text: Seq<u8>)
    ensures
        ({
            let body = bytes64(ord_id as int) + text;
            &&& body.len() == 8 + text.len()
            &&& le64(body, 0) == ord_id
            &&& body.subrange(8, body.len() as int) == text
        }),
{
    let body = bytes64(ord_id as int) + text;
    lemma_bytes_len(ord_id as int);
    assert(body.subrange(0, 8) =~= bytes64(ord_id as int));
    lemma_le64_at(body, 0, ord_id);
    assert(body.subrange(8, body.len() as int) =~= text);
}

proof fn lemma_trade_round_trip(price: u64, qty: u64, taker_cl_id: u64, maker_cl_id: u64)
    ensures
        ({
            let e = Event::Trade { price, qty, taker_cl_id, maker_cl_id };
            event_of(event_type(e), event_body(e)) == Some(e)
        }),
{
    let e = Event::Trade { price, qty, taker_cl_id, maker_cl_id };
    let body = event_body(e);
    lemma_bytes_len(price as int);
    lemma_bytes_len(qty as int);
    lemma_bytes_len(taker_cl_id as int);
    lemma_bytes_len(maker_cl_id as int);
    assert(body.subrange(0, 8) =~= bytes64(price as int));
    assert(body.subrange(8, 16) =~= bytes64(qty as int));
    assert(body.subrange(16, 24) =~= bytes64(taker_cl_id as int));
    assert(body.subrange(24, 32) =~= bytes64(maker_cl_id as int));
    lemma_le64_at(body, 0, price);
    lemma_le64_at(body, 8, qty);
    lemma_le64_at(body, 16, taker_cl_id);
    lemma_le64_at(body, 24, maker_cl_id);
}

proof fn lemma_delta_round_trip(side: Side, price: u64, level_qty: u64)
    ensures
        ({
            let e = Event::BookDelta { side, price, level_qty };
            event_of(event_type(e), event_body(e)) == Some(e)
        }),
{
    let e = Event::BookDelta { side, price, level_qty };
    let body = event_body(e);
    lemma_bytes_len(price as int);
    lemma_bytes_len(level_qty as int);
    assert(body.subrange(1, 9) =~= bytes64(price as int));
    assert(body.subrange(9, 17) =~= bytes64(level_qty as int));
    lemma_le64_at(body, 1, price);
    lemma_le64_at(body, 9, level_qty);
    assert(side_of(side_byte(side)) == side);
}

/// Decoding the message of an event gives back the event.
pub proof fn lemma_event_decode_encode(e: Event)
    ensures
        event_of(event_type(e), event_body(e)) == Some(e),
{
    lemma_text_lengths();
    match e {
        Event::Pong => {},
        Event::Ack { ord_id, note } => {
            lemma_id_text_round_trip(ord_id, ack_note_text(note));
            assert(event_body(e).len() != event_body(Event::Pong).len());
        },
        Event::Reject { ord_id, reason } => {
            lemma_id_text_round_trip(ord_id, reject_reason_text(reason));
            if reason == RejectReason::BadFrame {
                assert(reject_reason_text(reason) != reject_reason_text(RejectReason::NotFound));
            }
        },
        Event::Trade { price, qty, taker_cl_id, maker_cl_id } => {
            lemma_trade_round_trip(price, qty, taker_cl_id, maker_cl_id);
        },
        Event::BookDelta { side, price, level_qty } => {
            lemma_delta_round_trip(side, price, level_qty);
        },
    }
}

} // verus!
