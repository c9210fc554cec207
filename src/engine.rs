use vstd::prelude::*;
use crate::book::{
    crosses, filled_at, has_id, lemma_match_fills, lemma_qty_remove, lemma_rested_qty, match_spec, opposite,
    qty_at, removed, rested, total_qty, u64_max, OrderBook,
};
use crate::types::{AckNote, Command, Dest, Emit, Event, Fill, Order, RejectReason, Side, Tif};

verus! {

/// The trade reported for fill `f` of a taker of client `taker_cl`.
pub open spec fn trade_event(f: Fill, taker_cl: u64) -> Event {
    Event::Trade { price: f.price, qty: f.qty, taker_cl_id: taker_cl, maker_cl_id: f.maker_cl_id }
}

/// What fill `i` of `fills` emits: the trade to the submitter, then to the market,
/// then, where it is the last fill at its price, the level's quantity after matching.
pub open spec fn fill_emits(fills: Seq<Fill>, i: int, taker_cl: u64, opp_side: Side, opp_after: Seq<Order>) -> Seq<Emit> {
    let t = trade_event(fills[i], taker_cl);
    let trades = seq![Emit { dest: Dest::Submitter, event: t }, Emit { dest: Dest::Market, event: t }];
    if i + 1 == fills.len() || fills[i + 1].price != fills[i].price {
        trades.push(
            Emit {
                dest: Dest::Market,
                event: Event::BookDelta {
                    side: opp_side,
                    price: fills[i].price,
                    level_qty: qty_at(opp_after, fills[i].price) as u64,
                },
            },
        )
    } else {
        trades
    }
}

/// What the first `n` fills emit, in order.
pub open spec fn fills_emits(fills: Seq<Fill>, n: int, taker_cl: u64, opp_side: Side, opp_after: Seq<Order>) -> Seq<Emit>
    decreases n,
{
    if n <= 0 {
        Seq::empty()
    } else {
        fills_emits(fills, n - 1, taker_cl, opp_side, opp_after) + fill_emits(fills, n - 1, taker_cl, opp_side, opp_after)
    }
}

/// A new order is accepted when it has quantity, its id is not resting, and a good-til-canceled
/// remainder would keep its side's total within a `u64`.
pub open spec fn new_order_ok(bids: Seq<Order>, asks: Seq<Order>, lk: Map<u64, (Side, u64)>, o: Order) -> bool {
    let own = if o.side == Side::Bid { bids } else { asks };
    &&& o.qty > 0
    &&& !lk.contains_key(o.id)
    &&& (o.tif == Tif::Gtc ==> total_qty(own) + o.qty <= u64_max())
}

/// The open quantity left of `o` after matching against `opp`, if it is to rest.
pub open spec fn rests(opp: Seq<Order>, o: Order) -> bool {
    match_spec(opp, o.side, o.price, o.qty).2 > 0 && o.tif == Tif::Gtc
}

/// What an accepted new order emits: its fills, the level it rests at (if it does),
/// and its acknowledgement.
pub open spec fn new_order_emits(own: Seq<Order>, opp: Seq<Order>, o: Order) -> Seq<Emit> {
    let m = match_spec(opp, o.side, o.price, o.qty);
    let rest = if rests(opp, o) {
        seq![
            Emit {
                dest: Dest::Market,
                event: Event::BookDelta { side: o.side, price: o.price, level_qty: (qty_at(own, o.price) + m.2) as u64 },
            },
        ]
    } else {
        Seq::empty()
    };
    fills_emits(m.1, m.1.len() as int, o.cl_id, opposite(o.side), m.0) + rest + seq![
        Emit { dest: Dest::Submitter, event: Event::Ack { ord_id: o.id, note: AckNote::Accepted } },
    ]
}

/// A reply that ends the handling of a command.
pub open spec fn is_terminal(e: Event) -> bool {
    match e {
        Event::Ack { .. } | Event::Reject { .. } | Event::Pong => true,
        _ => false,
    }
}

/// `out` ends with one terminal reply to the submitter and holds no other.
pub open spec fn one_terminal_reply(out: Seq<Emit>) -> bool {
    &&& out.len() > 0
    &&& out.last().dest == Dest::Submitter
    &&& is_terminal(out.last().event)
    &&& forall|i: int| 0 <= i < out.len() - 1 ==> !is_terminal(#[trigger] out[i].event)
}

/// Trades and level updates only.
pub proof fn lemma_fills_emits_not_terminal(fills: Seq<Fill>, n: int, taker_cl: u64, opp_side: Side, opp_after: Seq<Order>)
    requires
        n <= fills.len(),
    ensures
        forall|i: int|
            0 <= i < fills_emits(fills, n, taker_cl, opp_side, opp_after).len() ==> !is_terminal(
                #[trigger] fills_emits(fills, n, taker_cl, opp_side, opp_after)[i].event,
            ),
    decreases n,
{
    if n > 0 {
        lemma_fills_emits_not_terminal(fills, n - 1, taker_cl, opp_side, opp_after);
    }
}

/// What is left of a taker that does not rest the whole of it stops only where the
/// other side no longer crosses; matching leaves no id that was not there.
pub proof fn lemma_match_facts(opp: Seq<Order>, taker: Side, limit: u64, rem: u64)
    ensures
        ({
            let m = match_spec(opp, taker, limit, rem);
            &&& m.2 <= rem
            &&& (m.2 > 0 ==> m.0.len() == 0 || !crosses(taker, limit, m.0[0].price))
            &&& forall|id: u64| has_id(m.0, id) ==> has_id(opp, id)
        }),
    decreases opp.len(),
{
    let m = match_spec(opp, taker, limit, rem);
    if rem == 0 || opp.len() == 0 || !crosses(taker, limit, opp[0].price) {
    } else if rem < opp[0].qty {
        assert forall|id: u64| has_id(m.0, id) implies has_id(opp, id) by {
            let a = choose|a: int| 0 <= a < m.0.len() && #[trigger] m.0[a].id == id;
            assert(opp[a].id == id);
        }
    } else {
        let t = opp.drop_first();
        lemma_match_facts(t, taker, limit, (rem - opp[0].qty) as u64);
        assert forall|id: u64| has_id(m.0, id) implies has_id(opp, id) by {
            assert(has_id(t, id));
            let a = choose|a: int| 0 <= a < t.len() && #[trigger] t[a].id == id;
            assert(opp[a + 1].id == id);
        }
    }
}

/// The side `side` of a book given by its two sides.
pub open spec fn sel(side: Side, bids: Seq<Order>, asks: Seq<Order>) -> Seq<Order> {
    if side == Side::Bid { bids } else { asks }
}

/// Level updates account for every change of level quantity: each one goes to the
/// market and reports its level's quantity after the command, and every level whose
/// quantity changed is reported. Summed over a book's lifetime, the changes the
/// updates announce are the changes of each side's resting quantity.
pub open spec fn deltas_track(bids0: Seq<Order>, asks0: Seq<Order>, bids1: Seq<Order>, asks1: Seq<Order>, out: Seq<Emit>) -> bool {
    &&& forall|i: int| 0 <= i < out.len() ==> match (#[trigger] out[i]).event {
        Event::BookDelta { side, price, level_qty } => out[i].dest == Dest::Market && level_qty == qty_at(
            sel(side, bids1, asks1),
            price,
        ) as u64,
        _ => true,
    }
    &&& forall|side: Side, p: u64|
        #[trigger] qty_at(sel(side, bids1, asks1), p) != qty_at(sel(side, bids0, asks0), p) ==> exists|i: int|
            0 <= i < out.len() && #[trigger] out[i] == (Emit {
                dest: Dest::Market,
                event: Event::BookDelta { side, price: p, level_qty: qty_at(sel(side, bids1, asks1), p) as u64 },
            })
}

/// Some fill is at price `p` when fills at `p` add up to anything.
proof fn lemma_filled_at_some(fs: Seq<Fill>, p: u64)
    requires
        filled_at(fs, p) != 0,
    ensures
        exists|k: int| 0 <= k < fs.len() && (#[trigger] fs[k]).price == p,
    decreases fs.len(),
{
    if fs[0].price != p {
        lemma_filled_at_some(fs.drop_first(), p);
        let k = choose|k: int| 0 <= k < fs.len() - 1 && (#[trigger] fs.drop_first()[k]).price == p;
        assert(fs[k + 1].price == p);
    }
}

/// From any fill at `p`, a later one at `p` is the last of its run.
proof fn lemma_last_of_run(fs: Seq<Fill>, p: u64, k: int)
    requires
        0 <= k < fs.len(),
        fs[k].price == p,
    ensures
        exists|j: int| k <= j < fs.len() && (#[trigger] fs[j]).price == p && (j + 1 == fs.len() || fs[j + 1].price != p),
    decreases fs.len() - k,
{
    if !(k + 1 == fs.len() || fs[k + 1].price != p) {
        lemma_last_of_run(fs, p, k + 1);
    }
}

/// The emits of the first `k` fills begin the emits of the first `n`.
proof fn lemma_fills_emits_prefix(fills: Seq<Fill>, k: int, n: int, taker_cl: u64, opp_side: Side, opp_after: Seq<Order>)
    requires
        0 <= k <= n <= fills.len(),
    ensures
        fills_emits(fills, k, taker_cl, opp_side, opp_after).len() <= fills_emits(fills, n, taker_cl, opp_side, opp_after).len(),
        fills_emits(fills, n, taker_cl, opp_side, opp_after).subrange(
            0,
            fills_emits(fills, k, taker_cl, opp_side, opp_after).len() as int,
        ) == fills_emits(fills, k, taker_cl, opp_side, opp_after),
    decreases n,
{
    let all = fills_emits(fills, n, taker_cl, opp_side, opp_after);
    let pre = fills_emits(fills, k, taker_cl, opp_side, opp_after);
    if k == n {
        assert(all.subrange(0, all.len() as int) =~= all);
    } else {
        lemma_fills_emits_prefix(fills, k, n - 1, taker_cl, opp_side, opp_after);
        let prev = fills_emits(fills, n - 1, taker_cl, opp_side, opp_after);
        assert(all.subrange(0, pre.len() as int) =~= prev.subrange(0, pre.len() as int));
    }
}

/// Every level update among the emits of the fills reports the matched side's level after matching.
proof fn lemma_fills_emits_deltas(fills: Seq<Fill>, n: int, taker_cl: u64, opp_side: Side, opp_after: Seq<Order>)
    requires
        0 <= n <= fills.len(),
    ensures
        forall|i: int| 0 <= i < fills_emits(fills, n, taker_cl, opp_side, opp_after).len() ==> match (#[trigger] fills_emits(fills, n, taker_cl, opp_side, opp_after)[i]).event {
            Event::BookDelta { side, price, level_qty } => fills_emits(fills, n, taker_cl, opp_side, opp_after)[i].dest == Dest::Market
                && side == opp_side && level_qty == qty_at(opp_after, price) as u64,
            _ => true,
        },
    decreases n,
{
    if n > 0 {
        lemma_fills_emits_deltas(fills, n - 1, taker_cl, opp_side, opp_after);
    }
}

/// A new order's level updates account for the changes it makes to the book.
proof fn lemma_new_order_deltas(bids0: Seq<Order>, asks0: Seq<Order>, bids1: Seq<Order>, asks1: Seq<Order>, no: Order)
    requires
        forall|i: int| 0 <= i < sel(opposite(no.side), bids0, asks0).len() ==> (#[trigger] sel(opposite(no.side), bids0, asks0)[i]).qty > 0,
        sel(opposite(no.side), bids1, asks1) == match_spec(sel(opposite(no.side), bids0, asks0), no.side, no.price, no.qty).0,
        rests(sel(opposite(no.side), bids0, asks0), no) ==> forall|p: u64| #[trigger] qty_at(sel(no.side, bids1, asks1), p) == qty_at(sel(no.side, bids0, asks0), p) + if p == no.price {
            match_spec(sel(opposite(no.side), bids0, asks0), no.side, no.price, no.qty).2 as int
        } else {
            0
        },
        !rests(sel(opposite(no.side), bids0, asks0), no) ==> sel(no.side, bids1, asks1) == sel(no.side, bids0, asks0),
    ensures
        deltas_track(bids0, asks0, bids1, asks1, new_order_emits(sel(no.side, bids0, asks0), sel(opposite(no.side), bids0, asks0), no)),
{
    let own0 = sel(no.side, bids0, asks0);
    let opp0 = sel(opposite(no.side), bids0, asks0);
    let own1 = sel(no.side, bids1, asks1);
    let os = opposite(no.side);
    let m = match_spec(opp0, no.side, no.price, no.qty);
    let fe = fills_emits(m.1, m.1.len() as int, no.cl_id, os, m.0);
    let out = new_order_emits(own0, opp0, no);
    let rest_len: int = if rests(opp0, no) { 1 } else { 0 };
    assert(out.len() == fe.len() + rest_len + 1);
    lemma_match_fills(opp0, no.side, no.price, no.qty);
    lemma_fills_emits_deltas(m.1, m.1.len() as int, no.cl_id, os, m.0);
    assert(sel(os, bids1, asks1) == m.0);
    assert forall|i: int| 0 <= i < out.len() implies match (#[trigger] out[i]).event {
        Event::BookDelta { side, price, level_qty } => out[i].dest == Dest::Market && level_qty == qty_at(sel(side, bids1, asks1), price) as u64,
        _ => true,
    } by {
        if i < fe.len() {
            assert(out[i] == fe[i]);
        }
    }
    assert forall|side: Side, p: u64|
        #[trigger] qty_at(sel(side, bids1, asks1), p) != qty_at(sel(side, bids0, asks0), p) implies exists|i: int|
            0 <= i < out.len() && #[trigger] out[i] == (Emit {
                dest: Dest::Market,
                event: Event::BookDelta { side, price: p, level_qty: qty_at(sel(side, bids1, asks1), p) as u64 },
            }) by {
        if side == os {
            assert(filled_at(m.1, p) + qty_at(m.0, p) == qty_at(opp0, p));
            lemma_filled_at_some(m.1, p);
            let k = choose|k: int| 0 <= k < m.1.len() && (#[trigger] m.1[k]).price == p;
            lemma_last_of_run(m.1, p, k);
            let j = choose|j: int| k <= j < m.1.len() && (#[trigger] m.1[j]).price == p && (j + 1 == m.1.len() || m.1[j + 1].price != p);
            let e = fill_emits(m.1, j, no.cl_id, os, m.0);
            let before = fills_emits(m.1, j, no.cl_id, os, m.0);
            let upto = fills_emits(m.1, j + 1, no.cl_id, os, m.0);
            lemma_fills_emits_prefix(m.1, j + 1, m.1.len() as int, no.cl_id, os, m.0);
            assert(upto == before + e);
            let i: int = before.len() as int + 2;
            assert(upto[i] == e[2]);
            assert(fe.subrange(0, upto.len() as int)[i] == upto[i]);
            assert(e[2] == (Emit { dest: Dest::Market, event: Event::BookDelta { side, price: p, level_qty: qty_at(sel(side, bids1, asks1), p) as u64 } }));
            assert(out[i] == fe[i]);
        } else {
            assert(side == no.side);
            assert(rests(opp0, no));
            assert(p == no.price);
            assert(out[fe.len() as int] == (Emit { dest: Dest::Market, event: Event::BookDelta { side, price: p, level_qty: qty_at(sel(side, bids1, asks1), p) as u64 } }));
        }
    }
}

/// How a new order changes the book: when accepted, the other side is what matching
/// leaves of it and a good-til-canceled remainder joins the tail of its level; when
/// rejected, nothing changes.
pub open spec fn new_order_effect(
    bids0: Seq<Order>,
    asks0: Seq<Order>,
    lk0: Map<u64, (Side, u64)>,
    bids1: Seq<Order>,
    asks1: Seq<Order>,
    lk1: Map<u64, (Side, u64)>,
    no: Order,
) -> bool {
    let own = sel(no.side, bids0, asks0);
    let opp = sel(opposite(no.side), bids0, asks0);
    if new_order_ok(bids0, asks0, lk0, no) {
        let m = match_spec(opp, no.side, no.price, no.qty);
        &&& sel(opposite(no.side), bids1, asks1) == m.0
        &&& if rests(opp, no) {
            &&& rested(no.side, own, sel(no.side, bids1, asks1), Order { qty: m.2, ..no })
            &&& lk1.contains_key(no.id)
        } else {
            &&& sel(no.side, bids1, asks1) == own
            &&& !lk1.contains_key(no.id)
        }
    } else {
        &&& bids1 == bids0
        &&& asks1 == asks0
        &&& lk1 == lk0
    }
}

/// The trades of `fills`, to the submitter and then to the market, each run of fills
/// at one price followed by that level's quantity on side `opp_side` of `b`.
fn emit_fills(b: &OrderBook, fills: &Vec<Fill>, taker_cl: u64, opp_side: Side) -> (out: Vec<Emit>)
    requires
        b.wf(),
    ensures
        out@ == fills_emits(fills@, fills@.len() as int, taker_cl, opp_side, b.side_view(opp_side)),
{
    let mut out: Vec<Emit> = Vec::new();
    let mut i: usize = 0;
    while i < fills.len()
        invariant
            b.wf(),
            i <= fills@.len(),
            out@ == fills_emits(fills@, i as int, taker_cl, opp_side, b.side_view(opp_side)),
        decreases fills@.len() - i,
    {
        let f = fills[i];
        let t = Event::Trade { price: f.price, qty: f.qty, taker_cl_id: taker_cl, maker_cl_id: f.maker_cl_id };
        out.push(Emit { dest: Dest::Submitter, event: t });
        out.push(Emit { dest: Dest::Market, event: t });
        if i + 1 == fills.len() || fills[i + 1].price != f.price {
            let lvl = b.level_qty(opp_side, f.price);
            out.push(Emit { dest: Dest::Market, event: Event::BookDelta { side: opp_side, price: f.price, level_qty: lvl } });
        }
        proof {
            assert(out@ =~= fills_emits(fills@, i + 1, taker_cl, opp_side, b.side_view(opp_side)));
        }
        i = i + 1;
    }
    out
}

/// Rests what is left (`rem`) of `no` and returns the update of its level.
fn rest_remainder(no: Order, rem: u64, b: &mut OrderBook) -> (e: Emit)
    requires
        old(b).wf(),
        0 < rem <= no.qty,
        !old(b).lookup@.contains_key(no.id),
        total_qty(old(b).side_view(no.side)) + no.qty <= u64_max(),
        old(b).side_view(opposite(no.side)).len() > 0 ==> !crosses(
            no.side,
            no.price,
            old(b).side_view(opposite(no.side))[0].price,
        ),
    ensures
        final(b).wf(),
        rested(no.side, old(b).side_view(no.side), final(b).side_view(no.side), Order { qty: rem, ..no }),
        final(b).side_view(opposite(no.side)) == old(b).side_view(opposite(no.side)),
        final(b).lookup@.contains_key(no.id),
        forall|p: u64| #[trigger] qty_at(final(b).side_view(no.side), p) == qty_at(old(b).side_view(no.side), p) + if p
            == no.price {
            rem as int
        } else {
            0
        },
        e == (Emit {
            dest: Dest::Market,
            event: Event::BookDelta {
                side: no.side,
                price: no.price,
                level_qty: (qty_at(old(b).side_view(no.side), no.price) + rem) as u64,
            },
        }),
{
    let ghost own0 = b.side_view(no.side);
    let resting = Order { qty: rem, ..no };
    b.insert_resting(resting);
    let lvl = b.level_qty(no.side, no.price);
    proof {
        lemma_rested_qty(no.side, own0, b.side_view(no.side), resting);
    }
    Emit { dest: Dest::Market, event: Event::BookDelta { side: no.side, price: no.price, level_qty: lvl } }
}

/// Matches a new order, rests a good-til-canceled remainder, and returns what is to
/// be sent: fills and level updates as they happen, then the acknowledgement.
/// An order without quantity, with an id that is resting, or whose remainder could
/// overflow its side is rejected as invalid and leaves the book alone.
#[verifier::rlimit(50)]
#[verifier::spinoff_prover]
pub fn handle_new(no: Order, b: &mut OrderBook) -> (out: Vec<Emit>)
    requires
        old(b).wf(),
    ensures
        final(b).wf(),
        deltas_track(old(b).bids@, old(b).asks@, final(b).bids@, final(b).asks@, out@),
        new_order_effect(old(b).bids@, old(b).asks@, old(b).lookup@, final(b).bids@, final(b).asks@, final(b).lookup@, no),
        out@ == (if new_order_ok(old(b).bids@, old(b).asks@, old(b).lookup@, no) {
            new_order_emits(old(b).side_view(no.side), old(b).side_view(opposite(no.side)), no)
        } else {
            seq![Emit { dest: Dest::Submitter, event: Event::Reject { ord_id: no.id, reason: RejectReason::Invalid } }]
        }),
{
    let ghost own0 = b.side_view(no.side);
    let ghost opp0 = b.side_view(opposite(no.side));
    let ghost bids0 = b.bids@;
    let ghost asks0 = b.asks@;
    let mut ok = no.qty > 0 && b.locate(no.id).is_none();
    if ok && matches!(no.tif, Tif::Gtc) {
        let total = b.side_qty(no.side);
        ok = total <= u64::MAX - no.qty;
    }
    if !ok {
        let mut out: Vec<Emit> = Vec::new();
        out.push(Emit { dest: Dest::Submitter, event: Event::Reject { ord_id: no.id, reason: RejectReason::Invalid } });
        return out;
    }
    let opp_side = no.side.opposite();
    let (fills, rem) = b.match_against(no.side, no.price, no.qty);
    let ghost m = match_spec(opp0, no.side, no.price, no.qty);
    proof {
        lemma_match_facts(opp0, no.side, no.price, no.qty);
        assert(opp_side == opposite(no.side));
    }
    let mut out = emit_fills(b, &fills, no.cl_id, opp_side);
    if rem > 0 && matches!(no.tif, Tif::Gtc) {
        proof {
            assert(!has_id(own0, no.id));
            assert(!has_id(opp0, no.id));
            if has_id(b.side_view(opp_side), no.id) {
                assert(has_id(opp0, no.id));
            }
            if no.side == Side::Bid {
                assert(!has_id(b.bids@, no.id));
                assert(!has_id(b.asks@, no.id));
            } else {
                assert(!has_id(b.bids@, no.id));
                assert(!has_id(b.asks@, no.id));
            }
        }
        let delta = rest_remainder(no, rem, b);
        out.push(delta);
    } else {
        proof {
            if has_id(b.side_view(opp_side), no.id) {
                assert(has_id(opp0, no.id));
            }
            if no.side == Side::Bid {
                assert(!has_id(b.bids@, no.id));
                assert(!has_id(b.asks@, no.id));
            } else {
                assert(!has_id(b.bids@, no.id));
                assert(!has_id(b.asks@, no.id));
            }
        }
    }
    out.push(Emit { dest: Dest::Submitter, event: Event::Ack { ord_id: no.id, note: AckNote::Accepted } });
    proof {
        assert(out@ =~= new_order_emits(own0, opp0, no));
        assert(sel(no.side, bids0, asks0) == own0);
        assert(sel(opposite(no.side), bids0, asks0) == opp0);
        assert(sel(no.side, b.bids@, b.asks@) == b.side_view(no.side));
        assert(sel(opposite(no.side), b.bids@, b.asks@) == b.side_view(opp_side));
        lemma_new_order_deltas(bids0, asks0, b.bids@, b.asks@, no);
    }
    out
}

/// What a cancel of `ord_id` emits, given the book before and after it.
pub open spec fn cancel_emits(lk: Map<u64, (Side, u64)>, after: Seq<Order>, ord_id: u64) -> Seq<Emit> {
    if lk.contains_key(ord_id) {
        let (side, px) = lk[ord_id];
        seq![
            Emit { dest: Dest::Market, event: Event::BookDelta { side, price: px, level_qty: qty_at(after, px) as u64 } },
            Emit { dest: Dest::Submitter, event: Event::Ack { ord_id, note: AckNote::Canceled } },
        ]
    } else {
        seq![Emit { dest: Dest::Submitter, event: Event::Reject { ord_id, reason: RejectReason::NotFound } }]
    }
}

/// Cancels the resting order `ord_id`: its level's new quantity goes to the market and
/// an acknowledgement to the submitter; an id that is not resting is rejected as not found.
pub fn handle_cancel(ord_id: u64, b: &mut OrderBook) -> (out: Vec<Emit>)
    requires
        old(b).wf(),
    ensures
        final(b).wf(),
        deltas_track(old(b).bids@, old(b).asks@, final(b).bids@, final(b).asks@, out@),
        old(b).lookup@.contains_key(ord_id) ==> ({
            let side = old(b).lookup@[ord_id].0;
            &&& removed(old(b).side_view(side), final(b).side_view(side), ord_id)
            &&& final(b).side_view(opposite(side)) == old(b).side_view(opposite(side))
            &&& final(b).lookup@ == old(b).lookup@.remove(ord_id)
            &&& out@ == cancel_emits(old(b).lookup@, final(b).side_view(side), ord_id)
        }),
        !old(b).lookup@.contains_key(ord_id) ==> ({
            &&& final(b).bids@ == old(b).bids@
            &&& final(b).asks@ == old(b).asks@
            &&& final(b).lookup@ == old(b).lookup@
            &&& out@ == cancel_emits(old(b).lookup@, old(b).bids@, ord_id)
        }),
{
    let mut out: Vec<Emit> = Vec::new();
    match b.locate(ord_id) {
        Some((side, px)) => {
            let ghost bids0 = b.bids@;
            let ghost asks0 = b.asks@;
            let ghost s0 = b.side_view(side);
            b.cancel(ord_id);
            let lvl = b.level_qty(side, px);
            out.push(Emit { dest: Dest::Market, event: Event::BookDelta { side, price: px, level_qty: lvl } });
            out.push(Emit { dest: Dest::Submitter, event: Event::Ack { ord_id, note: AckNote::Canceled } });
            proof {
                let s1 = b.side_view(side);
                let i = choose|i: int| 0 <= i < s0.len() && s0[i].id == ord_id && s1 == s0.remove(i);
                assert(s0[i].price == px);
                assert forall|sd: Side, p: u64|
                    #[trigger] qty_at(sel(sd, b.bids@, b.asks@), p) != qty_at(sel(sd, bids0, asks0), p) implies exists|k: int|
                        0 <= k < out@.len() && #[trigger] out@[k] == (Emit {
                            dest: Dest::Market,
                            event: Event::BookDelta { side: sd, price: p, level_qty: qty_at(sel(sd, b.bids@, b.asks@), p) as u64 },
                        }) by {
                    lemma_qty_remove(s0, i, p);
                    assert(sd == side);
                    assert(out@[0] == (Emit {
                        dest: Dest::Market,
                        event: Event::BookDelta { side: sd, price: p, level_qty: qty_at(sel(sd, b.bids@, b.asks@), p) as u64 },
                    }));
                }
            }
        },
        None => {
            out.push(Emit { dest: Dest::Submitter, event: Event::Reject { ord_id, reason: RejectReason::NotFound } });
        },
    }
    out
}

/// Applies one command to the book and returns, in order, what is to be sent and where.
pub fn process(b: &mut OrderBook, cmd: Command) -> (out: Vec<Emit>)
    requires
        old(b).wf(),
    ensures
        final(b).wf(),
        one_terminal_reply(out@),
        deltas_track(old(b).bids@, old(b).asks@, final(b).bids@, final(b).asks@, out@),
        match cmd {
            Command::Ping => {
                &&& out@ == seq![Emit { dest: Dest::Submitter, event: Event::Pong }]
                &&& final(b).bids@ == old(b).bids@
                &&& final(b).asks@ == old(b).asks@
                &&& final(b).lookup@ == old(b).lookup@
            },
            Command::Order(o) => {
                &&& new_order_effect(old(b).bids@, old(b).asks@, old(b).lookup@, final(b).bids@, final(b).asks@, final(b).lookup@, o)
                &&& out@ == if new_order_ok(old(b).bids@, old(b).asks@, old(b).lookup@, o) {
                    new_order_emits(old(b).side_view(o.side), old(b).side_view(opposite(o.side)), o)
                } else {
                    seq![Emit { dest: Dest::Submitter, event: Event::Reject { ord_id: o.id, reason: RejectReason::Invalid } }]
                }
            },
            Command::Cancel { ord_id, .. } => old(b).lookup@.contains_key(ord_id) ==> {
                let side = old(b).lookup@[ord_id].0;
                &&& removed(old(b).side_view(side), final(b).side_view(side), ord_id)
                &&& final(b).side_view(opposite(side)) == old(b).side_view(opposite(side))
                &&& final(b).lookup@ == old(b).lookup@.remove(ord_id)
                &&& out@ == cancel_emits(old(b).lookup@, final(b).side_view(side), ord_id)
            },
        },
        match cmd {
            Command::Cancel { ord_id, .. } => !old(b).lookup@.contains_key(ord_id) ==> {
                &&& final(b).bids@ == old(b).bids@
                &&& final(b).asks@ == old(b).asks@
                &&& final(b).lookup@ == old(b).lookup@
                &&& out@ == seq![
                    Emit { dest: Dest::Submitter, event: Event::Reject { ord_id, reason: RejectReason::NotFound } },
                ]
            },
            _ => true,
        },
{
    match cmd {
        Command::Ping => {
            let mut out: Vec<Emit> = Vec::new();
            out.push(Emit { dest: Dest::Submitter, event: Event::Pong });
            out
        },
        Command::Order(o) => {
            let out = handle_new(o, b);
            proof {
                if new_order_ok(old(b).bids@, old(b).asks@, old(b).lookup@, o) {
                    let m = match_spec(old(b).side_view(opposite(o.side)), o.side, o.price, o.qty);
                    lemma_fills_emits_not_terminal(m.1, m.1.len() as int, o.cl_id, opposite(o.side), m.0);
                    let f = fills_emits(m.1, m.1.len() as int, o.cl_id, opposite(o.side), m.0);
                    assert forall|i: int| 0 <= i < out@.len() - 1 implies !is_terminal(#[trigger] out@[i].event) by {
                        if i < f.len() {
                            assert(out@[i] == f[i]);
                        }
                    }
                }
            }
            out
        },
        Command::Cancel { ord_id, .. } => handle_cancel(ord_id, b),
    }
}

/// A snapshot of the book for the periodic heartbeat report.
#[derive(Debug, Clone, Copy, PartialEq, Eq)]
pub struct BookSummary {
    pub bid_levels: usize,
    pub ask_levels: usize,
    pub bid_qty: u64,
    pub ask_qty: u64,
    pub bid_orders: usize,
    pub ask_orders: usize,
    /// Best bid price and the quantity of its level.
    pub best_bid: Option<(u64, u64)>,
    /// Best ask price and the quantity of its level.
    pub best_ask: Option<(u64, u64)>,
    pub spread: Option<u64>,
}

/// The top of one side: best price and its level's quantity.
pub open spec fn top_of(s: Seq<Order>) -> Option<(u64, u64)> {
    if s.len() > 0 {
        Some((s[0].price, qty_at(s, s[0].price) as u64))
    } else {
        None
    }
}

/// Counts, totals, top of book and spread of the book.
pub fn summarize_book(b: &OrderBook) -> (r: BookSummary)
    requires
        b.wf(),
    ensures
        r.bid_levels == crate::book::level_count(b.bids@),
        r.ask_levels == crate::book::level_count(b.asks@),
        r.bid_qty == total_qty(b.bids@),
        r.ask_qty == total_qty(b.asks@),
        r.bid_orders == b.bids@.len(),
        r.ask_orders == b.asks@.len(),
        r.best_bid == top_of(b.bids@),
        r.best_ask == top_of(b.asks@),
        r.spread == (if b.bids@.len() > 0 && b.asks@.len() > 0 {
            Some((b.asks@[0].price - b.bids@[0].price) as u64)
        } else {
            None::<u64>
        }),
{
    let best_bid = match b.best_bid() {
        Some(px) => Some((px, b.level_qty(Side::Bid, px))),
        None => None,
    };
    let best_ask = match b.best_ask() {
        Some(px) => Some((px, b.level_qty(Side::Ask, px))),
        None => None,
    };
    let spread = match (best_bid, best_ask) {
        (Some((bp, _)), Some((ap, _))) => if ap >= bp {
            Some(ap - bp)
        } else {
            None
        },
        _ => None,
    };
    BookSummary {
        bid_levels: b.level_count(Side::Bid),
        ask_levels: b.level_count(Side::Ask),
        bid_qty: b.side_qty(Side::Bid),
        ask_qty: b.side_qty(Side::Ask),
        bid_orders: b.order_count(Side::Bid),
        ask_orders: b.order_count(Side::Ask),
        best_bid,
        best_ask,
        spread,
    }
}

} // verus!
