use matching_server::book::OrderBook;
use matching_server::engine::{handle_cancel, handle_new, process, summarize_book};
use matching_server::types::{AckNote, Command, Dest, Emit, Event, Order, RejectReason, Side, Tif};

fn order(id: u64, cl_id: u64, side: Side, price: u64, qty: u64, tif: Tif) -> Order {
    Order { id, cl_id, side, price, qty, timestamp: 0, tif }
}

fn sub(event: Event) -> Emit {
    Emit { dest: Dest::Submitter, event }
}

fn mkt(event: Event) -> Emit {
    Emit { dest: Dest::Market, event }
}

fn ack(ord_id: u64) -> Event {
    Event::Ack { ord_id, note: AckNote::Accepted }
}

fn trade(price: u64, qty: u64, taker_cl_id: u64, maker_cl_id: u64) -> Event {
    Event::Trade { price, qty, taker_cl_id, maker_cl_id }
}

fn delta(side: Side, price: u64, level_qty: u64) -> Event {
    Event::BookDelta { side, price, level_qty }
}

#[test]
fn cross_a_resting_bid() {
    let mut b = OrderBook::new();
    let out = process(&mut b, Command::Order(order(1, 10, Side::Bid, 100, 5, Tif::Gtc)));
    assert_eq!(out, vec![mkt(delta(Side::Bid, 100, 5)), sub(ack(1))]);
    let t = trade(100, 3, 20, 10);
    let out = process(&mut b, Command::Order(order(2, 20, Side::Ask, 100, 3, Tif::Gtc)));
    assert_eq!(out, vec![sub(t), mkt(t), mkt(delta(Side::Bid, 100, 2)), sub(ack(2))]);
    assert_eq!(b.bids.len(), 1);
    assert_eq!(b.bids[0].id, 1);
    assert_eq!(b.bids[0].qty, 2);
    assert!(b.asks.is_empty());
    assert_eq!(b.locate(1), Some((Side::Bid, 100)));
    assert_eq!(b.locate(2), None);
}

#[test]
fn walk_the_book() {
    let (a, bb, c, z) = (1u64, 2u64, 3u64, 26u64);
    let mut b = OrderBook::new();
    process(&mut b, Command::Order(order(101, a, Side::Ask, 101, 2, Tif::Gtc)));
    process(&mut b, Command::Order(order(102, bb, Side::Ask, 101, 2, Tif::Gtc)));
    process(&mut b, Command::Order(order(103, c, Side::Ask, 102, 1, Tif::Gtc)));
    let out = process(&mut b, Command::Order(order(9, z, Side::Bid, 102, 4, Tif::Gtc)));
    let t1 = trade(101, 2, z, a);
    let t2 = trade(101, 2, z, bb);
    assert_eq!(
        out,
        vec![sub(t1), mkt(t1), sub(t2), mkt(t2), mkt(delta(Side::Ask, 101, 0)), sub(ack(9))]
    );
    assert_eq!(b.asks.len(), 1);
    assert_eq!(b.asks[0].cl_id, c);
    assert_eq!(b.asks[0].qty, 1);
    assert!(b.bids.is_empty());
    assert_eq!(b.level_qty(Side::Ask, 101), 0);
}

#[test]
fn ioc_partial() {
    let mut b = OrderBook::new();
    process(&mut b, Command::Order(order(1, 7, Side::Ask, 100, 2, Tif::Gtc)));
    let out = process(&mut b, Command::Order(order(5, 8, Side::Bid, 100, 5, Tif::Ioc)));
    let t = trade(100, 2, 8, 7);
    assert_eq!(out, vec![sub(t), mkt(t), mkt(delta(Side::Ask, 100, 0)), sub(ack(5))]);
    assert!(b.bids.is_empty());
    assert!(b.asks.is_empty());
    assert_eq!(b.locate(5), None);
}

#[test]
fn cancel_success() {
    let mut b = OrderBook::new();
    process(&mut b, Command::Order(order(7, 1, Side::Bid, 99, 4, Tif::Gtc)));
    let out = process(&mut b, Command::Cancel { cl_id: 1, ord_id: 7 });
    assert_eq!(
        out,
        vec![mkt(delta(Side::Bid, 99, 0)), sub(Event::Ack { ord_id: 7, note: AckNote::Canceled })]
    );
    assert_eq!(b.locate(7), None);
    assert_eq!(b.level_count(Side::Bid), 0);
    assert!(b.lookup.is_empty());
}

#[test]
fn cancel_of_unknown() {
    let mut b = OrderBook::new();
    let out = handle_cancel(4242, &mut b);
    assert_eq!(out, vec![sub(Event::Reject { ord_id: 4242, reason: RejectReason::NotFound })]);
}

#[test]
fn cancel_keeps_rest_of_level() {
    let mut b = OrderBook::new();
    process(&mut b, Command::Order(order(1, 1, Side::Ask, 50, 3, Tif::Gtc)));
    process(&mut b, Command::Order(order(2, 2, Side::Ask, 50, 4, Tif::Gtc)));
    let out = handle_cancel(1, &mut b);
    assert_eq!(out[0], mkt(delta(Side::Ask, 50, 4)));
    assert_eq!(b.asks.len(), 1);
    assert_eq!(b.asks[0].id, 2);
}

#[test]
fn ping_gives_pong() {
    let mut b = OrderBook::new();
    assert_eq!(process(&mut b, Command::Ping), vec![sub(Event::Pong)]);
}

#[test]
fn zero_quantity_is_invalid() {
    let mut b = OrderBook::new();
    let out = handle_new(order(3, 1, Side::Bid, 10, 0, Tif::Gtc), &mut b);
    assert_eq!(out, vec![sub(Event::Reject { ord_id: 3, reason: RejectReason::Invalid })]);
    assert!(b.bids.is_empty());
}

#[test]
fn duplicate_resting_id_is_invalid() {
    let mut b = OrderBook::new();
    process(&mut b, Command::Order(order(3, 1, Side::Bid, 10, 1, Tif::Gtc)));
    let out = process(&mut b, Command::Order(order(3, 1, Side::Ask, 20, 1, Tif::Gtc)));
    assert_eq!(out, vec![sub(Event::Reject { ord_id: 3, reason: RejectReason::Invalid })]);
    assert!(b.asks.is_empty());
}

#[test]
fn side_total_overflow_is_invalid() {
    let mut b = OrderBook::new();
    process(&mut b, Command::Order(order(1, 1, Side::Bid, 10, u64::MAX - 1, Tif::Gtc)));
    let out = process(&mut b, Command::Order(order(2, 1, Side::Bid, 11, 2, Tif::Gtc)));
    assert_eq!(out, vec![sub(Event::Reject { ord_id: 2, reason: RejectReason::Invalid })]);
    let out = process(&mut b, Command::Order(order(3, 1, Side::Bid, 11, 1, Tif::Gtc)));
    assert_eq!(out.last(), Some(&sub(ack(3))));
    assert_eq!(b.side_qty(Side::Bid), u64::MAX);
}

#[test]
fn price_zero_rests_and_never_crosses() {
    let mut b = OrderBook::new();
    process(&mut b, Command::Order(order(1, 1, Side::Bid, 0, 5, Tif::Gtc)));
    let out = process(&mut b, Command::Order(order(2, 2, Side::Ask, 1, 5, Tif::Gtc)));
    assert_eq!(out, vec![mkt(delta(Side::Ask, 1, 5)), sub(ack(2))]);
    assert_eq!(b.best_bid(), Some(0));
    assert_eq!(b.best_ask(), Some(1));
}

#[test]
fn lookup_matches_levels_after_commands() {
    let mut b = OrderBook::new();
    process(&mut b, Command::Order(order(1, 1, Side::Bid, 100, 5, Tif::Gtc)));
    process(&mut b, Command::Order(order(2, 1, Side::Bid, 101, 5, Tif::Gtc)));
    process(&mut b, Command::Order(order(3, 2, Side::Ask, 105, 5, Tif::Gtc)));
    process(&mut b, Command::Order(order(4, 2, Side::Ask, 100, 7, Tif::Gtc)));
    process(&mut b, Command::Cancel { cl_id: 2, ord_id: 3 });
    for o in b.bids.iter().chain(b.asks.iter()) {
        assert_eq!(b.locate(o.id), Some((o.side, o.price)));
    }
    assert_eq!(b.lookup.len(), b.bids.len() + b.asks.len());
    assert_eq!(b.locate(2), None);
    assert_eq!(b.locate(3), None);
    assert_eq!(b.locate(1), Some((Side::Bid, 100)));
}

#[test]
fn book_not_crossed_after_aggressive_orders() {
    let mut b = OrderBook::new();
    process(&mut b, Command::Order(order(1, 1, Side::Ask, 100, 2, Tif::Gtc)));
    process(&mut b, Command::Order(order(2, 1, Side::Ask, 102, 2, Tif::Gtc)));
    process(&mut b, Command::Order(order(3, 2, Side::Bid, 105, 3, Tif::Gtc)));
    assert_eq!(b.best_bid(), None);
    assert_eq!(b.best_ask(), Some(102));
    assert_eq!(b.level_qty(Side::Ask, 102), 1);
    process(&mut b, Command::Order(order(4, 2, Side::Bid, 101, 3, Tif::Gtc)));
    process(&mut b, Command::Order(order(5, 3, Side::Ask, 101, 1, Tif::Gtc)));
    let (bid, ask) = (b.best_bid().unwrap(), b.best_ask().unwrap());
    assert_eq!((bid, ask), (101, 102));
    assert!(bid < ask);
}

#[test]
fn trades_bounded_and_conserve_level_quantity() {
    let mut b = OrderBook::new();
    process(&mut b, Command::Order(order(1, 1, Side::Bid, 100, 3, Tif::Gtc)));
    process(&mut b, Command::Order(order(2, 2, Side::Bid, 100, 4, Tif::Gtc)));
    let before = b.level_qty(Side::Bid, 100);
    let out = process(&mut b, Command::Order(order(3, 3, Side::Ask, 100, 5, Tif::Ioc)));
    let mut filled = 0u64;
    for e in out.iter().filter(|e| e.dest == Dest::Market) {
        if let Event::Trade { price, qty, .. } = e.event {
            assert_eq!(price, 100);
            assert!(qty <= 5);
            filled += qty;
        }
    }
    assert_eq!(filled, 5);
    assert_eq!(before - b.level_qty(Side::Bid, 100), filled);
}

#[test]
fn one_terminal_reply_per_command() {
    let mut b = OrderBook::new();
    let cmds = vec![
        Command::Ping,
        Command::Order(order(1, 1, Side::Bid, 10, 5, Tif::Gtc)),
        Command::Order(order(2, 2, Side::Ask, 9, 8, Tif::Gtc)),
        Command::Cancel { cl_id: 2, ord_id: 2 },
        Command::Cancel { cl_id: 2, ord_id: 2 },
        Command::Order(order(4, 2, Side::Ask, 9, 0, Tif::Gtc)),
    ];
    for c in cmds {
        let out = process(&mut b, c);
        let terminal = |e: &Emit| {
            matches!(e.event, Event::Ack { .. } | Event::Reject { .. } | Event::Pong)
        };
        assert_eq!(out.iter().filter(|e| terminal(e)).count(), 1);
        assert!(terminal(out.last().unwrap()));
        assert_eq!(out.last().unwrap().dest, Dest::Submitter);
    }
}

#[test]
fn book_deltas_track_level_changes() {
    let mut b = OrderBook::new();
    let mut announced_bid_total: i128 = 0;
    let mut last: std::collections::HashMap<(u8, u64), u64> = std::collections::HashMap::new();
    let cmds = vec![
        Command::Order(order(1, 1, Side::Bid, 100, 5, Tif::Gtc)),
        Command::Order(order(2, 1, Side::Bid, 99, 5, Tif::Gtc)),
        Command::Order(order(3, 2, Side::Ask, 99, 7, Tif::Ioc)),
        Command::Cancel { cl_id: 1, ord_id: 2 },
        Command::Order(order(4, 1, Side::Bid, 98, 2, Tif::Gtc)),
    ];
    for c in cmds {
        for e in process(&mut b, c) {
            if let Event::BookDelta { side: Side::Bid, price, level_qty } = e.event {
                let prev = last.insert((0, price), level_qty).unwrap_or(0);
                announced_bid_total += level_qty as i128 - prev as i128;
            }
        }
    }
    assert_eq!(announced_bid_total, b.side_qty(Side::Bid) as i128);
    assert_eq!(b.side_qty(Side::Bid), 2);
}

#[test]
fn fifo_within_a_level() {
    let mut b = OrderBook::new();
    process(&mut b, Command::Order(order(1, 11, Side::Ask, 100, 3, Tif::Gtc)));
    process(&mut b, Command::Order(order(2, 22, Side::Ask, 100, 3, Tif::Gtc)));
    let out = process(&mut b, Command::Order(order(3, 33, Side::Bid, 100, 4, Tif::Gtc)));
    let t1 = trade(100, 3, 33, 11);
    let t2 = trade(100, 1, 33, 22);
    assert_eq!(
        out,
        vec![sub(t1), mkt(t1), sub(t2), mkt(t2), mkt(delta(Side::Ask, 100, 2)), sub(ack(3))]
    );
    assert_eq!(b.asks[0].id, 2);
    assert_eq!(b.asks[0].qty, 2);
}

#[test]
fn resting_joins_tail_of_level() {
    let mut b = OrderBook::new();
    b.insert_resting(order(1, 1, Side::Bid, 100, 1, Tif::Gtc));
    b.insert_resting(order(2, 1, Side::Bid, 101, 1, Tif::Gtc));
    b.insert_resting(order(3, 1, Side::Bid, 100, 1, Tif::Gtc));
    b.insert_resting(order(4, 1, Side::Bid, 99, 1, Tif::Gtc));
    let ids: Vec<u64> = b.bids.iter().map(|o| o.id).collect();
    assert_eq!(ids, vec![2, 1, 3, 4]);
    assert_eq!(b.level_count(Side::Bid), 3);
    assert!(b.cancel(3));
    assert!(!b.cancel(3));
}

#[test]
fn match_against_reports_fills() {
    let mut b = OrderBook::new();
    b.insert_resting(order(1, 5, Side::Ask, 10, 2, Tif::Gtc));
    b.insert_resting(order(2, 6, Side::Ask, 11, 2, Tif::Gtc));
    let (fills, rem) = b.match_against(Side::Bid, 10, 5);
    assert_eq!(fills.len(), 1);
    assert_eq!((fills[0].price, fills[0].qty, fills[0].maker_id, fills[0].maker_cl_id), (10, 2, 1, 5));
    assert_eq!(rem, 3);
    assert_eq!(b.asks.len(), 1);
}

#[test]
fn summary_of_book() {
    let mut b = OrderBook::new();
    process(&mut b, Command::Order(order(1, 1, Side::Bid, 100, 5, Tif::Gtc)));
    process(&mut b, Command::Order(order(2, 1, Side::Bid, 100, 2, Tif::Gtc)));
    process(&mut b, Command::Order(order(3, 1, Side::Bid, 98, 1, Tif::Gtc)));
    process(&mut b, Command::Order(order(4, 2, Side::Ask, 103, 4, Tif::Gtc)));
    let s = summarize_book(&b);
    assert_eq!((s.bid_levels, s.ask_levels), (2, 1));
    assert_eq!((s.bid_qty, s.ask_qty), (8, 4));
    assert_eq!((s.bid_orders, s.ask_orders), (3, 1));
    assert_eq!(s.best_bid, Some((100, 7)));
    assert_eq!(s.best_ask, Some((103, 4)));
    assert_eq!(s.spread, Some(3));
    let e = summarize_book(&OrderBook::new());
    assert_eq!((e.best_bid, e.best_ask, e.spread), (None, None, None));
}
