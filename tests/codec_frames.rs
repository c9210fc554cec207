use matching_server::codec::{
    decode_command, decode_event, decode_frame, encode_command, encode_event, encode_frame, Decoded, MSG_ACK,
    MSG_CANCEL, MSG_NEW_ORDER, MSG_PING,
};
use matching_server::book::OrderBook;
use matching_server::engine::process;
use matching_server::types::{AckNote, Command, Dest, Event, Order, RejectReason, Side, Tif};

#[test]
fn ping_split_across_segments() {
    let frame = encode_frame(MSG_PING, &[]);
    assert_eq!(frame, vec![4, 0, 0, 0, 1, 0, 0, 0]);
    let mut buf: Vec<u8> = Vec::new();
    buf.extend_from_slice(&frame[..3]);
    assert_eq!(decode_frame(&buf), Decoded::NeedMore);
    buf.extend_from_slice(&frame[3..]);
    let d = decode_frame(&buf);
    assert_eq!(d, Decoded::Frame { msg_type: MSG_PING, body: vec![], consumed: 8 });
    if let Decoded::Frame { msg_type, body, consumed } = d {
        buf.drain(..consumed);
        assert!(buf.is_empty());
        let cmd = decode_command(msg_type, &body, 0).unwrap();
        let mut b = OrderBook::new();
        let out = process(&mut b, cmd);
        assert_eq!(out.len(), 1);
        assert_eq!(out[0].dest, Dest::Submitter);
        assert_eq!(out[0].event, Event::Pong);
        assert_eq!(encode_event(&out[0].event), vec![8, 0, 0, 0, 100, 0, 4, 0, b'p', b'o', b'n', b'g']);
    }
}

#[test]
fn decode_leaves_following_frame() {
    let mut buf = encode_frame(MSG_CANCEL, &[1u8; 16]);
    buf.extend_from_slice(&[4, 0, 0]);
    match decode_frame(&buf) {
        Decoded::Frame { msg_type, body, consumed } => {
            assert_eq!(msg_type, MSG_CANCEL);
            assert_eq!(body, vec![1u8; 16]);
            assert_eq!(consumed, 24);
        }
        other => panic!("unexpected {:?}", other),
    }
    assert_eq!(decode_frame(&buf[24..]), Decoded::NeedMore);
}

#[test]
fn length_mismatch_is_malformed() {
    // payload_len 6 but body_len 1
    let buf = vec![6u8, 0, 0, 0, 1, 0, 1, 0, 9, 9];
    assert_eq!(decode_frame(&buf), Decoded::Malformed { consumed: 10 });
    let short = vec![2u8, 0, 0, 0, 1, 0];
    assert_eq!(decode_frame(&short), Decoded::Malformed { consumed: 6 });
}

#[test]
fn frame_round_trip() {
    let body = vec![1u8, 2, 3, 250];
    let f = encode_frame(0x1234, &body);
    assert_eq!(f, vec![8, 0, 0, 0, 0x34, 0x12, 4, 0, 1, 2, 3, 250]);
    match decode_frame(&f) {
        Decoded::Frame { msg_type, body: b, consumed } => {
            assert_eq!(consumed, f.len());
            assert_eq!(encode_frame(msg_type, &b), f);
        }
        other => panic!("unexpected {:?}", other),
    }
}

#[test]
fn new_order_round_trip() {
    let o = Order { id: 77, cl_id: 0x0102030405060708, side: Side::Ask, price: 1234, qty: 9, timestamp: 55, tif: Tif::Ioc };
    let (t, body) = encode_command(&Command::Order(o));
    assert_eq!(t, MSG_NEW_ORDER);
    assert_eq!(body.len(), 34);
    assert_eq!(&body[0..8], &[8, 7, 6, 5, 4, 3, 2, 1]);
    assert_eq!(body[16], 1);
    assert_eq!(body[33], 1);
    assert_eq!(decode_command(t, &body, 55), Ok(Command::Order(o)));
    let c = Command::Cancel { cl_id: 3, ord_id: 4 };
    let (t, body) = encode_command(&c);
    assert_eq!(t, MSG_CANCEL);
    assert_eq!(decode_command(t, &body, 0), Ok(c));
    let (t, body) = encode_command(&Command::Ping);
    assert_eq!(decode_command(t, &body, 0), Ok(Command::Ping));
}

#[test]
fn negative_price_is_invalid() {
    let o = Order { id: 5, cl_id: 1, side: Side::Bid, price: 10, qty: 1, timestamp: 0, tif: Tif::Gtc };
    let (t, mut body) = encode_command(&Command::Order(o));
    body[17..25].copy_from_slice(&(-3i64).to_le_bytes());
    assert_eq!(decode_command(t, &body, 0), Err(Event::Reject { ord_id: 5, reason: RejectReason::Invalid }));
    let (t, mut body) = encode_command(&Command::Order(o));
    body[16] = 2;
    assert_eq!(decode_command(t, &body, 0), Err(Event::Reject { ord_id: 5, reason: RejectReason::Invalid }));
}

#[test]
fn bad_frame_and_unknown_msg() {
    assert_eq!(decode_command(MSG_NEW_ORDER, &[0u8; 10], 0), Err(Event::Reject { ord_id: 0, reason: RejectReason::BadFrame }));
    assert_eq!(decode_command(MSG_CANCEL, &[0u8; 15], 0), Err(Event::Reject { ord_id: 0, reason: RejectReason::BadFrame }));
    assert_eq!(decode_command(42, &[], 0), Err(Event::Reject { ord_id: 0, reason: RejectReason::UnknownMsg }));
}

#[test]
fn event_encodings() {
    let ack = encode_event(&Event::Ack { ord_id: 1, note: AckNote::Accepted });
    assert_eq!(ack, vec![14, 0, 0, 0, 100, 0, 10, 0, 1, 0, 0, 0, 0, 0, 0, 0, b'o', b'k']);
    assert_eq!(ack[4] as u16, MSG_ACK);
    let rej = encode_event(&Event::Reject { ord_id: 2, reason: RejectReason::NotFound });
    assert_eq!(&rej[4..6], &[101, 0]);
    assert_eq!(&rej[16..], b"not_found");
    let tr = encode_event(&Event::Trade { price: 100, qty: 3, taker_cl_id: 20, maker_cl_id: 10 });
    assert_eq!(tr.len(), 8 + 32);
    assert_eq!(&tr[4..6], &[102, 0]);
    assert_eq!(&tr[8..16], &100u64.to_le_bytes());
    assert_eq!(&tr[32..40], &10u64.to_le_bytes());
    let d = encode_event(&Event::BookDelta { side: Side::Ask, price: 7, level_qty: 9 });
    assert_eq!(d, vec![21, 0, 0, 0, 103, 0, 17, 0, 1, 7, 0, 0, 0, 0, 0, 0, 0, 9, 0, 0, 0, 0, 0, 0, 0]);
    let c = encode_event(&Event::Ack { ord_id: 3, note: AckNote::Canceled });
    assert_eq!(&c[16..], b"canceled");
}

#[test]
fn event_round_trip() {
    let events = vec![
        Event::Pong,
        Event::Ack { ord_id: 9, note: AckNote::Accepted },
        Event::Ack { ord_id: 10, note: AckNote::Canceled },
        Event::Reject { ord_id: 11, reason: RejectReason::NotFound },
        Event::Reject { ord_id: 12, reason: RejectReason::Invalid },
        Event::Reject { ord_id: 13, reason: RejectReason::BadFrame },
        Event::Reject { ord_id: 14, reason: RejectReason::UnknownMsg },
        Event::Trade { price: 100, qty: 3, taker_cl_id: 20, maker_cl_id: 10 },
        Event::BookDelta { side: Side::Bid, price: u64::MAX, level_qty: 0 },
    ];
    for e in events {
        let f = encode_event(&e);
        match decode_frame(&f) {
            Decoded::Frame { msg_type, body, consumed } => {
                assert_eq!(consumed, f.len());
                assert_eq!(decode_event(msg_type, &body), Some(e));
            }
            other => panic!("unexpected {:?}", other),
        }
    }
    assert_eq!(decode_event(MSG_ACK, b"nope"), None);
    assert_eq!(decode_event(103, &[2u8; 17]), None);
}
