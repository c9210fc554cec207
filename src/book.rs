use vstd::prelude::*;
use std::collections::HashMap;
use crate::types::{Fill, Order, Side};

verus! {

broadcast use vstd::std_specs::hash::group_hash_axioms;

/// The largest value of a `u64`, as an integer.
pub open spec fn u64_max() -> int {
    0xffff_ffff_ffff_ffffint
}

/// On side `side`, price `a` has priority over or ties with price `b`.
pub open spec fn at_least_as_good(side: Side, a: u64, b: u64) -> bool {
    match side {
        Side::Bid => a >= b,
        Side::Ask => a <= b,
    }
}

/// A taker on side `taker` with limit `limit` may trade with a maker at `maker_price`.
pub open spec fn crosses(taker: Side, limit: u64, maker_price: u64) -> bool {
    match taker {
        Side::Bid => maker_price <= limit,
        Side::Ask => maker_price >= limit,
    }
}

/// The other side.
pub open spec fn opposite(side: Side) -> Side {
    match side {
        Side::Bid => Side::Ask,
        Side::Ask => Side::Bid,
    }
}

/// Sum of the open quantities.
pub open spec fn total_qty(s: Seq<Order>) -> int
    decreases s.len(),
{
    if s.len() == 0 {
        0
    } else {
        s[0].qty + total_qty(s.drop_first())
    }
}

/// Aggregate open quantity at price `p`: the quantity of that price level.
pub open spec fn qty_at(s: Seq<Order>, p: u64) -> int
    decreases s.len(),
{
    if s.len() == 0 {
        0
    } else {
        (if s[0].price == p { s[0].qty as int } else { 0 }) + qty_at(s.drop_first(), p)
    }
}

/// Number of price levels of a side held in priority order.
pub open spec fn level_count(s: Seq<Order>) -> nat
    decreases s.len(),
{
    if s.len() == 0 {
        0
    } else {
        level_count(s.drop_last()) + if s.len() == 1 || s[s.len() - 1].price != s[s.len()
            - 2].price {
            1nat
        } else {
            0nat
        }
    }
}

/// Some order of `s` has id `id`.
pub open spec fn has_id(s: Seq<Order>, id: u64) -> bool {
    exists|i: int| 0 <= i < s.len() && #[trigger] s[i].id == id
}

/// One side of the book, held best price first and in arrival order within a price:
/// every order is of that side with open quantity, ids are distinct, the lookup maps
/// each id to the side and price, and the side's total quantity fits in a `u64`.
pub open spec fn side_wf(side: Side, s: Seq<Order>, lk: Map<u64, (Side, u64)>) -> bool {
    &&& forall|i: int, j: int|
        0 <= i < j < s.len() ==> at_least_as_good(side, #[trigger] s[i].price, #[trigger] s[j].price)
    &&& forall|i: int| 0 <= i < s.len() ==> (#[trigger] s[i]).side == side && s[i].qty > 0
    &&& forall|i: int, j: int| 0 <= i < j < s.len() ==> (#[trigger] s[i]).id != (#[trigger] s[j]).id
    &&& forall|i: int|
        0 <= i < s.len() ==> lk.contains_key((#[trigger] s[i]).id) && lk[s[i].id] == (side, s[i].price)
    &&& total_qty(s) <= u64_max()
}

/// The whole book: both sides well formed, no id on both, the lookup covering exactly
/// the resting ids, and the book not crossed.
pub open spec fn book_wf(bids: Seq<Order>, asks: Seq<Order>, lk: Map<u64, (Side, u64)>) -> bool {
    &&& side_wf(Side::Bid, bids, lk)
    &&& side_wf(Side::Ask, asks, lk)
    &&& forall|id: u64| #[trigger] lk.contains_key(id) <==> (has_id(bids, id) || has_id(asks, id))
    &&& (bids.len() > 0 && asks.len() > 0 ==> bids[0].price < asks[0].price)
}

/// The fill of `q` units against resting order `o`.
pub open spec fn fill_of(o: Order, q: u64) -> Fill {
    Fill { price: o.price, qty: q, maker_id: o.id, maker_cl_id: o.cl_id }
}

/// Matching a taker of side `taker`, limit `limit` and quantity `rem` against the
/// opposite side `opp` (best first): the side left, the fills in order, and what is
/// left of the taker.
pub open spec fn match_spec(opp: Seq<Order>, taker: Side, limit: u64, rem: u64) -> (Seq<Order>, Seq<Fill>, u64)
    decreases opp.len(),
{
    if rem == 0 || opp.len() == 0 || !crosses(taker, limit, opp[0].price) {
        (opp, Seq::empty(), rem)
    } else if rem < opp[0].qty {
        (opp.update(0, Order { qty: (opp[0].qty - rem) as u64, ..opp[0] }), seq![fill_of(opp[0], rem)], 0u64)
    } else {
        let r = match_spec(opp.drop_first(), taker, limit, (rem - opp[0].qty) as u64);
        (r.0, seq![fill_of(opp[0], opp[0].qty)] + r.1, r.2)
    }
}

/// `new` is `old` with `o` placed after every order whose price is at least as good,
/// and before every order with a worse price: the tail of its price level.
pub open spec fn rested(side: Side, old: Seq<Order>, new: Seq<Order>, o: Order) -> bool {
    exists|pos: int|
        0 <= pos <= old.len() && new == old.insert(pos, o) && (forall|j: int|
            0 <= j < pos ==> at_least_as_good(side, #[trigger] old[j].price, o.price)) && (forall|j: int|
            pos <= j < old.len() ==> !at_least_as_good(side, #[trigger] old[j].price, o.price))
}

/// `new` is `old` with its one order of id `id` taken out.
pub open spec fn removed(old: Seq<Order>, new: Seq<Order>, id: u64) -> bool {
    exists|i: int| 0 <= i < old.len() && old[i].id == id && new == old.remove(i)
}

/// Resting an order adds its quantity to its level and to nothing else.
pub proof fn lemma_rested_qty(side: Side, old: Seq<Order>, new: Seq<Order>, o: Order)
    requires
        rested(side, old, new, o),
    ensures
        forall|p: u64| #[trigger] qty_at(new, p) == qty_at(old, p) + if p == o.price { o.qty as int } else { 0 },
{
    let pos = choose|pos: int|
        0 <= pos <= old.len() && new == old.insert(pos, o) && (forall|j: int|
            0 <= j < pos ==> at_least_as_good(side, #[trigger] old[j].price, o.price)) && (forall|j: int|
            pos <= j < old.len() ==> !at_least_as_good(side, #[trigger] old[j].price, o.price));
    assert(new.remove(pos) =~= old);
    assert forall|p: u64| #[trigger] qty_at(new, p) == qty_at(old, p) + if p == o.price { o.qty as int } else { 0 } by {
        lemma_qty_remove(new, pos, p);
    }
}

/// Quantities are never negative, and a level never holds more than its side.
pub proof fn lemma_qty_bounds(s: Seq<Order>, p: u64)
    ensures
        0 <= qty_at(s, p) <= total_qty(s),
    decreases s.len(),
{
    if s.len() > 0 {
        lemma_qty_bounds(s.drop_first(), p);
    }
}

/// Taking one order out takes its quantity out of the side and of its level.
pub proof fn lemma_qty_remove(s: Seq<Order>, i: int, p: u64)
    requires
        0 <= i < s.len(),
    ensures
        total_qty(s) == total_qty(s.remove(i)) + s[i].qty,
        qty_at(s, p) == qty_at(s.remove(i), p) + if s[i].price == p { s[i].qty as int } else { 0 },
    decreases s.len(),
{
    if i == 0 {
        assert(s.remove(0) =~= s.drop_first());
    } else {
        lemma_qty_remove(s.drop_first(), i - 1, p);
        assert(s.remove(i).drop_first() =~= s.drop_first().remove(i - 1));
    }
}

/// Changing the head's quantity changes the side's and its level's by as much.
pub proof fn lemma_qty_update_head(s: Seq<Order>, o: Order, p: u64)
    requires
        s.len() > 0,
        o.price == s[0].price,
    ensures
        total_qty(s.update(0, o)) == total_qty(s) - s[0].qty + o.qty,
        qty_at(s.update(0, o), p) == qty_at(s, p) - (if s[0].price == p { s[0].qty as int } else { 0 })
            + (if o.price == p { o.qty as int } else { 0 }),
{
    assert(s.update(0, o).drop_first() =~= s.drop_first());
}

/// Removing one order keeps a side well formed, with its id gone from the lookup.
pub proof fn lemma_side_remove(side: Side, s: Seq<Order>, lk: Map<u64, (Side, u64)>, i: int)
    requires
        side_wf(side, s, lk),
        0 <= i < s.len(),
    ensures
        side_wf(side, s.remove(i), lk.remove(s[i].id)),
        forall|id: u64| has_id(s.remove(i), id) <==> (has_id(s, id) && id != s[i].id),
{
    let r = s.remove(i);
    let lk2 = lk.remove(s[i].id);
    lemma_qty_remove(s, i, 0);
    assert forall|a: int, b: int| 0 <= a < b < r.len() implies r[a].id != r[b].id by {
        let a0 = if a < i { a } else { a + 1 };
        let b0 = if b < i { b } else { b + 1 };
        assert(s[a0].id != s[b0].id);
    }
    assert forall|a: int, b: int| 0 <= a < b < r.len() implies at_least_as_good(side, r[a].price, r[b].price) by {
        let a0 = if a < i { a } else { a + 1 };
        let b0 = if b < i { b } else { b + 1 };
        assert(at_least_as_good(side, s[a0].price, s[b0].price));
    }
    assert forall|a: int| 0 <= a < r.len() implies lk2.contains_key(#[trigger] r[a].id) && lk2[r[a].id] == (side, r[a].price) by {
        let a0 = if a < i { a } else { a + 1 };
        assert(s[a0].id != s[i].id);
    }
    assert forall|id: u64| has_id(r, id) <==> (has_id(s, id) && id != s[i].id) by {
        if has_id(r, id) {
            let a = choose|a: int| 0 <= a < r.len() && #[trigger] r[a].id == id;
            let a0 = if a < i { a } else { a + 1 };
            assert(s[a0].id == id);
            assert(a0 != i);
            assert(s[a0].id != s[i].id);
        }
        if has_id(s, id) && id != s[i].id {
            let a0 = choose|a0: int| 0 <= a0 < s.len() && #[trigger] s[a0].id == id;
            let a = if a0 < i { a0 } else { a0 - 1 };
            assert(r[a].id == id);
        }
    }
}

/// A side keeps its form when the lookup loses or gains an id that none of its orders has.
pub proof fn lemma_side_lookup_other(side: Side, s: Seq<Order>, lk: Map<u64, (Side, u64)>, id: u64, v: (Side, u64))
    requires
        side_wf(side, s, lk),
        !has_id(s, id),
    ensures
        side_wf(side, s, lk.remove(id)),
        side_wf(side, s, lk.insert(id, v)),
{
    assert forall|a: int| 0 <= a < s.len() implies (#[trigger] s[a]).id != id by {
        if s[a].id == id {
            assert(has_id(s, id));
        }
    }
}

/// An order whose id the lookup maps to the other side is not on this side.
pub proof fn lemma_not_on_side(side: Side, s: Seq<Order>, lk: Map<u64, (Side, u64)>, id: u64)
    requires
        side_wf(side, s, lk),
        lk.contains_key(id),
        lk[id].0 != side,
    ensures
        !has_id(s, id),
{
    if has_id(s, id) {
        let a = choose|a: int| 0 <= a < s.len() && #[trigger] s[a].id == id;
        assert(lk[s[a].id] == (side, s[a].price));
    }
}

/// Removing order `i` of one side keeps the whole book well formed.
pub proof fn lemma_book_remove(bids: Seq<Order>, asks: Seq<Order>, lk: Map<u64, (Side, u64)>, side: Side, i: int)
    requires
        book_wf(bids, asks, lk),
        0 <= i < (if side == Side::Bid { bids } else { asks }).len(),
    ensures
        ({
            let s = if side == Side::Bid { bids } else { asks };
            let lk2 = lk.remove(s[i].id);
            if side == Side::Bid {
                book_wf(bids.remove(i), asks, lk2)
            } else {
                book_wf(bids, asks.remove(i), lk2)
            }
        }),
{
    if side == Side::Bid {
        let id = bids[i].id;
        lemma_side_remove(Side::Bid, bids, lk, i);
        lemma_not_on_side(Side::Ask, asks, lk, id);
        lemma_side_lookup_other(Side::Ask, asks, lk, id, (Side::Bid, 0));
        let r = bids.remove(i);
        if r.len() > 0 && asks.len() > 0 {
            let a0 = if i == 0 { 1int } else { 0int };
            assert(r[0] == bids[a0]);
            assert(at_least_as_good(Side::Bid, bids[0].price, bids[a0].price));
        }
    } else {
        let id = asks[i].id;
        lemma_side_remove(Side::Ask, asks, lk, i);
        lemma_not_on_side(Side::Bid, bids, lk, id);
        lemma_side_lookup_other(Side::Bid, bids, lk, id, (Side::Ask, 0));
        let r = asks.remove(i);
        if r.len() > 0 && bids.len() > 0 {
            let a0 = if i == 0 { 1int } else { 0int };
            assert(r[0] == asks[a0]);
            assert(at_least_as_good(Side::Ask, asks[0].price, asks[a0].price));
        }
    }
}

/// `book_wf` with the side of a taker and the side it trades against named.
pub open spec fn parts_wf(taker: Side, own: Seq<Order>, opp: Seq<Order>, lk: Map<u64, (Side, u64)>) -> bool {
    if taker == Side::Bid {
        book_wf(own, opp, lk)
    } else {
        book_wf(opp, own, lk)
    }
}

/// Inserting an order at a position that keeps the priority order keeps a side well formed.
pub proof fn lemma_side_insert(side: Side, s: Seq<Order>, lk: Map<u64, (Side, u64)>, pos: int, o: Order)
    requires
        side_wf(side, s, lk),
        0 <= pos <= s.len(),
        forall|j: int| 0 <= j < pos ==> at_least_as_good(side, #[trigger] s[j].price, o.price),
        forall|j: int| pos <= j < s.len() ==> !at_least_as_good(side, #[trigger] s[j].price, o.price),
        !has_id(s, o.id),
        o.side == side,
        o.qty > 0,
        total_qty(s) + o.qty <= u64_max(),
    ensures
        side_wf(side, s.insert(pos, o), lk.insert(o.id, (side, o.price))),
        forall|id: u64| has_id(s.insert(pos, o), id) <==> (has_id(s, id) || id == o.id),
{
    let r = s.insert(pos, o);
    let lk2 = lk.insert(o.id, (side, o.price));
    assert(r.remove(pos) =~= s);
    lemma_qty_remove(r, pos, 0);
    assert forall|a: int| 0 <= a < s.len() implies (#[trigger] s[a]).id != o.id by {
        if s[a].id == o.id {
            assert(has_id(s, o.id));
        }
    }
    assert forall|a: int, b: int| 0 <= a < b < r.len() implies r[a].id != r[b].id by {
        if a != pos && b != pos {
            let a0 = if a < pos { a } else { a - 1 };
            let b0 = if b < pos { b } else { b - 1 };
            assert(s[a0].id != s[b0].id);
        }
    }
    assert forall|a: int, b: int| 0 <= a < b < r.len() implies at_least_as_good(side, #[trigger] r[a].price, #[trigger] r[b].price) by {
        let a0 = if a < pos { a } else { a - 1 };
        let b0 = if b < pos { b } else { b - 1 };
        if a == pos {
            assert(!at_least_as_good(side, s[b0].price, o.price));
        } else if b == pos {
            assert(at_least_as_good(side, s[a0].price, o.price));
        } else {
            assert(at_least_as_good(side, s[a0].price, s[b0].price));
        }
    }
    assert forall|a: int| 0 <= a < r.len() implies lk2.contains_key(#[trigger] r[a].id) && lk2[r[a].id] == (side, r[a].price) by {
        if a != pos {
            let a0 = if a < pos { a } else { a - 1 };
            assert(r[a] == s[a0]);
        }
    }
    assert forall|id: u64| has_id(r, id) <==> (has_id(s, id) || id == o.id) by {
        if has_id(r, id) {
            let a = choose|a: int| 0 <= a < r.len() && #[trigger] r[a].id == id;
            if a != pos {
                let a0 = if a < pos { a } else { a - 1 };
                assert(s[a0].id == id);
            }
        }
        if has_id(s, id) {
            let a0 = choose|a0: int| 0 <= a0 < s.len() && #[trigger] s[a0].id == id;
            let a = if a0 < pos { a0 } else { a0 + 1 };
            assert(r[a].id == id);
        }
        if id == o.id {
            assert(r[pos].id == id);
        }
    }
}

/// Lowering the head's open quantity, to a positive amount, keeps the book well formed.
pub proof fn lemma_book_reduce_head(taker: Side, own: Seq<Order>, opp: Seq<Order>, lk: Map<u64, (Side, u64)>, q: u64)
    requires
        parts_wf(taker, own, opp, lk),
        opp.len() > 0,
        0 < q <= opp[0].qty,
    ensures
        parts_wf(taker, own, opp.update(0, Order { qty: q, ..opp[0] }), lk),
        forall|id: u64| has_id(opp.update(0, Order { qty: q, ..opp[0] }), id) <==> has_id(opp, id),
{
    let o = Order { qty: q, ..opp[0] };
    let r = opp.update(0, o);
    lemma_qty_update_head(opp, o, 0);
    assert forall|id: u64| has_id(r, id) <==> has_id(opp, id) by {
        if has_id(r, id) {
            let a = choose|a: int| 0 <= a < r.len() && #[trigger] r[a].id == id;
            assert(opp[a].id == id);
        }
        if has_id(opp, id) {
            let a = choose|a: int| 0 <= a < opp.len() && #[trigger] opp[a].id == id;
            assert(r[a].id == id);
        }
    }
    let side = opposite(taker);
    assert forall|a: int, b: int| 0 <= a < b < r.len() implies at_least_as_good(side, #[trigger] r[a].price, #[trigger] r[b].price) by {
        assert(at_least_as_good(side, opp[a].price, opp[b].price));
    }
    assert forall|a: int, b: int| 0 <= a < b < r.len() implies (#[trigger] r[a]).id != (#[trigger] r[b]).id by {
        assert(opp[a].id != opp[b].id);
    }
}

/// Taking the head of the opposite side out keeps the book well formed.
pub proof fn lemma_book_pop_head(taker: Side, own: Seq<Order>, opp: Seq<Order>, lk: Map<u64, (Side, u64)>)
    requires
        parts_wf(taker, own, opp, lk),
        opp.len() > 0,
    ensures
        parts_wf(taker, own, opp.remove(0), lk.remove(opp[0].id)),
{
    if taker == Side::Bid {
        lemma_book_remove(own, opp, lk, Side::Ask, 0);
    } else {
        lemma_book_remove(opp, own, lk, Side::Bid, 0);
    }
}

/// Whether `a` has priority over or ties with `b` on `side`.
pub fn at_least_as_good_exec(side: Side, a: u64, b: u64) -> (r: bool)
    ensures
        r == at_least_as_good(side, a, b),
{
    match side {
        Side::Bid => a >= b,
        Side::Ask => a <= b,
    }
}

/// Whether a taker of `taker` with limit `limit` may trade at `maker_price`.
pub fn crosses_exec(taker: Side, limit: u64, maker_price: u64) -> (r: bool)
    ensures
        r == crosses(taker, limit, maker_price),
{
    match taker {
        Side::Bid => maker_price <= limit,
        Side::Ask => maker_price >= limit,
    }
}

/// The index at which an order of price `price` joins a side: after every order
/// whose price is at least as good.
fn rest_position(s: &Vec<Order>, side: Side, price: u64) -> (pos: usize)
    requires
        forall|i: int, j: int|
            0 <= i < j < s@.len() ==> at_least_as_good(side, #[trigger] s@[i].price, #[trigger] s@[j].price),
    ensures
        pos <= s@.len(),
        forall|j: int| 0 <= j < pos ==> at_least_as_good(side, #[trigger] s@[j].price, price),
        forall|j: int| pos <= j < s@.len() ==> !at_least_as_good(side, #[trigger] s@[j].price, price),
{
    let mut pos: usize = 0;
    while pos < s.len() && at_least_as_good_exec(side, s[pos].price, price)
        invariant
            pos <= s@.len(),
            forall|j: int| 0 <= j < pos ==> at_least_as_good(side, #[trigger] s@[j].price, price),
        decreases s@.len() - pos,
    {
        pos = pos + 1;
    }
    proof {
        assert forall|j: int| pos <= j < s@.len() implies !at_least_as_good(side, #[trigger] s@[j].price, price) by {
            if j > pos {
                assert(at_least_as_good(side, s@[pos as int].price, s@[j].price));
            }
        }
    }
    pos
}

/// The index of the order with id `id`.
fn index_of(s: &Vec<Order>, id: u64) -> (r: usize)
    requires
        has_id(s@, id),
    ensures
        r < s@.len(),
        s@[r as int].id == id,
{
    let mut i: usize = 0;
    while i < s.len()
        invariant
            i <= s@.len(),
            has_id(s@, id),
            forall|j: int| 0 <= j < i ==> (#[trigger] s@[j]).id != id,
        decreases s@.len() - i,
    {
        if s[i].id == id {
            return i;
        }
        i = i + 1;
    }
    proof {
        let j = choose|j: int| 0 <= j < s@.len() && #[trigger] s@[j].id == id;
        assert(s@[j].id != id);
    }
    0
}

/// Total quantity of a sequence of fills.
pub open spec fn filled(fs: Seq<Fill>) -> int
    decreases fs.len(),
{
    if fs.len() == 0 {
        0
    } else {
        fs[0].qty + filled(fs.drop_first())
    }
}

/// Total quantity of the fills at price `p`.
pub open spec fn filled_at(fs: Seq<Fill>, p: u64) -> int
    decreases fs.len(),
{
    if fs.len() == 0 {
        0
    } else {
        (if fs[0].price == p { fs[0].qty as int } else { 0 }) + filled_at(fs.drop_first(), p)
    }
}

/// What matching does, fill by fill. The k-th fill is against the k-th resting order
/// of the other side, in priority order, at that order's price, which the taker's limit
/// reaches; it is no larger than the taker's quantity nor than that order's open
/// quantity, and every fill but the last takes the whole of its order, so that an
/// order is filled completely before any order behind it is touched. The fills add up
/// to what the taker lost, and at every price to what the resting side lost there.
pub proof fn lemma_match_fills(opp: Seq<Order>, taker: Side, limit: u64, rem: u64)
    requires
        forall|i: int| 0 <= i < opp.len() ==> (#[trigger] opp[i]).qty > 0,
    ensures
        ({
            let m = match_spec(opp, taker, limit, rem);
            &&& m.1.len() <= opp.len()
            &&& forall|k: int| 0 <= k < m.1.len() ==> {
                &&& (#[trigger] m.1[k]).maker_id == opp[k].id
                &&& m.1[k].maker_cl_id == opp[k].cl_id
                &&& m.1[k].price == opp[k].price
                &&& crosses(taker, limit, opp[k].price)
                &&& 0 < m.1[k].qty <= opp[k].qty
                &&& m.1[k].qty <= rem
            }
            &&& forall|k: int| 0 <= k < m.1.len() - 1 ==> (#[trigger] m.1[k]).qty == opp[k].qty
            &&& filled(m.1) + m.2 == rem
            &&& forall|p: u64| filled_at(m.1, p) + qty_at(m.0, p) == #[trigger] qty_at(opp, p)
        }),
    decreases opp.len(),
{
    let m = match_spec(opp, taker, limit, rem);
    if rem == 0 || opp.len() == 0 || !crosses(taker, limit, opp[0].price) {
    } else if rem < opp[0].qty {
        let o = Order { qty: (opp[0].qty - rem) as u64, ..opp[0] };
        assert forall|p: u64| filled_at(m.1, p) + qty_at(m.0, p) == #[trigger] qty_at(opp, p) by {
            lemma_qty_update_head(opp, o, p);
            assert(m.1.drop_first() =~= Seq::<Fill>::empty());
            assert(filled_at(Seq::<Fill>::empty(), p) == 0);
        }
        assert(m.1.drop_first() =~= Seq::<Fill>::empty());
        assert(filled(Seq::<Fill>::empty()) == 0);
    } else {
        let t = opp.drop_first();
        let q = opp[0].qty;
        let r = match_spec(t, taker, limit, (rem - q) as u64);
        lemma_match_fills(t, taker, limit, (rem - q) as u64);
        let f = fill_of(opp[0], q);
        assert(m.1 == seq![f] + r.1);
        assert(m.1.drop_first() =~= r.1);
        assert forall|k: int| 0 <= k < m.1.len() implies {
            &&& (#[trigger] m.1[k]).maker_id == opp[k].id
            &&& m.1[k].maker_cl_id == opp[k].cl_id
            &&& m.1[k].price == opp[k].price
            &&& crosses(taker, limit, opp[k].price)
            &&& 0 < m.1[k].qty <= opp[k].qty
            &&& m.1[k].qty <= rem
        } by {
            if k > 0 {
                assert(m.1[k] == r.1[k - 1]);
                assert(opp[k] == t[k - 1]);
            }
        }
        assert forall|k: int| 0 <= k < m.1.len() - 1 implies (#[trigger] m.1[k]).qty == opp[k].qty by {
            if k > 0 {
                assert(m.1[k] == r.1[k - 1]);
                assert(opp[k] == t[k - 1]);
            }
        }
        assert forall|p: u64| filled_at(m.1, p) + qty_at(m.0, p) == #[trigger] qty_at(opp, p) by {
            assert(filled_at(r.1, p) + qty_at(r.0, p) == qty_at(t, p));
        }
    }
}

/// Price-time priority within a level: of two resting orders A ahead of B at the same
/// price on the same side, matching touches B only after it has taken all of A.
pub proof fn lemma_match_fifo(opp: Seq<Order>, taker: Side, limit: u64, rem: u64, a: int, b: int)
    requires
        forall|i: int| 0 <= i < opp.len() ==> (#[trigger] opp[i]).qty > 0,
        forall|i: int, j: int| 0 <= i < j < opp.len() ==> (#[trigger] opp[i]).id != (#[trigger] opp[j]).id,
        0 <= a < b < opp.len(),
        opp[a].price == opp[b].price,
    ensures
        ({
            let fills = match_spec(opp, taker, limit, rem).1;
            (exists|k: int| 0 <= k < fills.len() && (#[trigger] fills[k]).maker_id == opp[b].id) ==> exists|k: int|
                0 <= k < fills.len() && (#[trigger] fills[k]).maker_id == opp[a].id && fills[k].qty == opp[a].qty
        }),
{
    let fills = match_spec(opp, taker, limit, rem).1;
    lemma_match_fills(opp, taker, limit, rem);
    if exists|k: int| 0 <= k < fills.len() && (#[trigger] fills[k]).maker_id == opp[b].id {
        let k = choose|k: int| 0 <= k < fills.len() && (#[trigger] fills[k]).maker_id == opp[b].id;
        assert(fills[k].maker_id == opp[k].id);
        if k != b {
            assert(opp[k].id != opp[b].id);
        }
        assert(fills[a].maker_id == opp[a].id);
        assert(fills[a].qty == opp[a].qty);
    }
}

/// The book of one instrument. Each side is held best price first and, within a
/// price, in arrival order, so that a price level is a run of adjacent orders.
/// `lookup` maps every resting id to its side and price.
pub struct OrderBook {
    pub bids: Vec<Order>,
    pub asks: Vec<Order>,
    pub lookup: HashMap<u64, (Side, u64)>,
}

impl OrderBook {
    /// The book's invariant.
    pub open spec fn wf(&self) -> bool {
        book_wf(self.bids@, self.asks@, self.lookup@)
    }

    /// The orders of one side, best first.
    pub open spec fn side_view(&self, side: Side) -> Seq<Order> {
        match side {
            Side::Bid => self.bids@,
            Side::Ask => self.asks@,
        }
    }

    /// An empty book.
    pub fn new() -> (r: OrderBook)
        ensures
            r.wf(),
            r.bids@.len() == 0,
            r.asks@.len() == 0,
            r.lookup@ == Map::<u64, (Side, u64)>::empty(),
    {
        let r = OrderBook { bids: Vec::new(), asks: Vec::new(), lookup: HashMap::new() };
        assert(r.lookup@ =~= Map::<u64, (Side, u64)>::empty());
        r
    }

    fn side_ref(&self, side: Side) -> (r: &Vec<Order>)
        ensures
            r@ == self.side_view(side),
    {
        match side {
            Side::Bid => &self.bids,
            Side::Ask => &self.asks,
        }
    }

    /// The highest resting bid price.
    pub fn best_bid(&self) -> (r: Option<u64>)
        requires
            self.wf(),
        ensures
            r == (if self.bids@.len() > 0 { Some(self.bids@[0].price) } else { None::<u64> }),
            r matches Some(p) ==> forall|i: int| 0 <= i < self.bids@.len() ==> #[trigger] self.bids@[i].price <= p,
    {
        if self.bids.len() > 0 {
            proof {
                assert forall|i: int| 0 <= i < self.bids@.len() implies #[trigger] self.bids@[i].price <= self.bids@[0].price by {
                    if i > 0 {
                        assert(at_least_as_good(Side::Bid, self.bids@[0].price, self.bids@[i].price));
                    }
                }
            }
            Some(self.bids[0].price)
        } else {
            None
        }
    }

    /// The lowest resting ask price.
    pub fn best_ask(&self) -> (r: Option<u64>)
        requires
            self.wf(),
        ensures
            r == (if self.asks@.len() > 0 { Some(self.asks@[0].price) } else { None::<u64> }),
            r matches Some(p) ==> forall|i: int| 0 <= i < self.asks@.len() ==> #[trigger] self.asks@[i].price >= p,
    {
        if self.asks.len() > 0 {
            proof {
                assert forall|i: int| 0 <= i < self.asks@.len() implies #[trigger] self.asks@[i].price >= self.asks@[0].price by {
                    if i > 0 {
                        assert(at_least_as_good(Side::Ask, self.asks@[0].price, self.asks@[i].price));
                    }
                }
            }
            Some(self.asks[0].price)
        } else {
            None
        }
    }

    /// Aggregate open quantity of the level at `price` on `side` (0 where there is none).
    pub fn level_qty(&self, side: Side, price: u64) -> (r: u64)
        requires
            self.wf(),
        ensures
            r == qty_at(self.side_view(side), price),
    {
        let s = self.side_ref(side);
        let mut acc: u64 = 0;
        let mut i: usize = 0;
        proof {
            lemma_qty_bounds(s@, price);
            assert(s@.subrange(0, s@.len() as int) =~= s@);
        }
        while i < s.len()
            invariant
                0 <= i <= s@.len(),
                s@ == self.side_view(side),
                self.wf(),
                acc + qty_at(s@.subrange(i as int, s@.len() as int), price) == qty_at(s@, price),
            decreases s@.len() - i,
        {
            let ghost rest = s@.subrange(i as int, s@.len() as int);
            proof {
                assert(rest.drop_first() =~= s@.subrange(i + 1, s@.len() as int));
                lemma_qty_bounds(rest.drop_first(), price);
                lemma_qty_bounds(s@, price);
            }
            if s[i].price == price {
                acc = acc + s[i].qty;
            }
            i = i + 1;
        }
        proof {
            assert(s@.subrange(i as int, s@.len() as int) =~= Seq::<Order>::empty());
        }
        acc
    }

    /// Aggregate open quantity of a whole side.
    pub fn side_qty(&self, side: Side) -> (r: u64)
        requires
            self.wf(),
        ensures
            r == total_qty(self.side_view(side)),
    {
        let s = self.side_ref(side);
        let mut acc: u64 = 0;
        let mut i: usize = 0;
        proof {
            assert(s@.subrange(0, s@.len() as int) =~= s@);
        }
        while i < s.len()
            invariant
                0 <= i <= s@.len(),
                s@ == self.side_view(side),
                self.wf(),
                acc + total_qty(s@.subrange(i as int, s@.len() as int)) == total_qty(s@),
            decreases s@.len() - i,
        {
            let ghost rest = s@.subrange(i as int, s@.len() as int);
            proof {
                assert(rest.drop_first() =~= s@.subrange(i + 1, s@.len() as int));
                lemma_qty_bounds(rest.drop_first(), 0);
            }
            acc = acc + s[i].qty;
            i = i + 1;
        }
        proof {
            assert(s@.subrange(i as int, s@.len() as int) =~= Seq::<Order>::empty());
        }
        acc
    }

    /// Number of resting orders on a side.
    pub fn order_count(&self, side: Side) -> (r: usize)
        ensures
            r == self.side_view(side).len(),
    {
        self.side_ref(side).len()
    }

    /// Number of price levels on a side.
    pub fn level_count(&self, side: Side) -> (r: usize)
        ensures
            r == level_count(self.side_view(side)),
    {
        let s = self.side_ref(side);
        let mut c: usize = 0;
        let mut i: usize = 0;
        proof {
            assert(s@.take(0) =~= Seq::<Order>::empty());
        }
        while i < s.len()
            invariant
                0 <= i <= s@.len(),
                c <= i,
                c == level_count(s@.take(i as int)),
            decreases s@.len() - i,
        {
            proof {
                assert(s@.take(i + 1).drop_last() =~= s@.take(i as int));
            }
            if i == 0 || s[i].price != s[i - 1].price {
                c = c + 1;
            }
            i = i + 1;
        }
        proof {
            assert(s@.take(i as int) =~= s@);
        }
        c
    }

    /// Where the order `id` rests, if it does.
    pub fn locate(&self, id: u64) -> (r: Option<(Side, u64)>)
        requires
            self.wf(),
        ensures
            r == (if self.lookup@.contains_key(id) { Some(self.lookup@[id]) } else { None::<(Side, u64)> }),
    {
        match self.lookup.get(&id) {
            Some(v) => Some(*v),
            None => None,
        }
    }

    /// Rests `o` at the tail of its price level and records it in the lookup. The
    /// caller has matched it first, so it no longer crosses the other side.
    pub fn insert_resting(&mut self, o: Order)
        requires
            old(self).wf(),
            o.qty > 0,
            !old(self).lookup@.contains_key(o.id),
            total_qty(old(self).side_view(o.side)) + o.qty <= u64_max(),
            old(self).side_view(opposite(o.side)).len() > 0 ==> !crosses(
                o.side,
                o.price,
                old(self).side_view(opposite(o.side))[0].price,
            ),
        ensures
            final(self).wf(),
            rested(o.side, old(self).side_view(o.side), final(self).side_view(o.side), o),
            final(self).side_view(opposite(o.side)) == old(self).side_view(opposite(o.side)),
            final(self).lookup@ == old(self).lookup@.insert(o.id, (o.side, o.price)),
    {
        let ghost lk = self.lookup@;
        let ghost bids0 = self.bids@;
        let ghost asks0 = self.asks@;
        let pos: usize;
        match o.side {
            Side::Bid => {
                pos = rest_position(&self.bids, Side::Bid, o.price);
                self.bids.insert(pos, o);
            },
            Side::Ask => {
                pos = rest_position(&self.asks, Side::Ask, o.price);
                self.asks.insert(pos, o);
            },
        }
        self.lookup.insert(o.id, (o.side, o.price));
        proof {
            let own0 = if o.side == Side::Bid { bids0 } else { asks0 };
            let opp0 = if o.side == Side::Bid { asks0 } else { bids0 };
            let own_side = o.side;
            let opp_side = opposite(o.side);
            assert(!has_id(own0, o.id));
            assert(!has_id(opp0, o.id));
            lemma_side_insert(own_side, own0, lk, pos as int, o);
            lemma_side_lookup_other(opp_side, opp0, lk, o.id, (o.side, o.price));
            assert(rested(o.side, own0, own0.insert(pos as int, o), o));
            let b = self.bids@;
            let a = self.asks@;
            if b.len() > 0 && a.len() > 0 {
                if o.side == Side::Bid {
                    if pos > 0 {
                        assert(b[0] == bids0[0]);
                    }
                } else {
                    if pos > 0 {
                        assert(a[0] == asks0[0]);
                    }
                }
            }
        }
    }

    /// Takes the order `id` out of the book. Returns whether it was resting.
    pub fn cancel(&mut self, id: u64) -> (r: bool)
        requires
            old(self).wf(),
        ensures
            final(self).wf(),
            r == old(self).lookup@.contains_key(id),
            r ==> ({
                let side = old(self).lookup@[id].0;
                &&& removed(old(self).side_view(side), final(self).side_view(side), id)
                &&& final(self).side_view(opposite(side)) == old(self).side_view(opposite(side))
                &&& final(self).lookup@ == old(self).lookup@.remove(id)
            }),
            !r ==> final(self).bids@ == old(self).bids@ && final(self).asks@ == old(self).asks@
                && final(self).lookup@ == old(self).lookup@,
    {
        let ghost bids0 = self.bids@;
        let ghost asks0 = self.asks@;
        let ghost lk = self.lookup@;
        let side = match self.lookup.get(&id) {
            Some(v) => v.0,
            None => {
                return false;
            },
        };
        proof {
            if side == Side::Bid {
                lemma_not_on_side(Side::Ask, asks0, lk, id);
            } else {
                lemma_not_on_side(Side::Bid, bids0, lk, id);
            }
        }
        match side {
            Side::Bid => {
                let i = index_of(&self.bids, id);
                self.bids.remove(i);
                proof {
                    lemma_book_remove(bids0, asks0, lk, Side::Bid, i as int);
                }
            },
            Side::Ask => {
                let i = index_of(&self.asks, id);
                self.asks.remove(i);
                proof {
                    lemma_book_remove(bids0, asks0, lk, Side::Ask, i as int);
                }
            },
        }
        self.lookup.remove(&id);
        true
    }

    /// Matches a taker of side `taker`, limit `limit` and quantity `qty` against the
    /// other side, best price first and in arrival order within a price. Returns the
    /// fills in order and the quantity left to the taker.
    pub fn match_against(&mut self, taker: Side, limit: u64, qty: u64) -> (r: (Vec<Fill>, u64))
        requires
            old(self).wf(),
        ensures
            final(self).wf(),
            ({
                let m = match_spec(old(self).side_view(opposite(taker)), taker, limit, qty);
                &&& final(self).side_view(opposite(taker)) == m.0
                &&& r.0@ == m.1
                &&& r.1 == m.2
            }),
            final(self).side_view(taker) == old(self).side_view(taker),
    {
        let ghost own0 = self.side_view(taker);
        let ghost m0 = match_spec(self.side_view(opposite(taker)), taker, limit, qty);
        let mut opp: Vec<Order> = Vec::new();
        match taker {
            Side::Bid => std::mem::swap(&mut opp, &mut self.asks),
            Side::Ask => std::mem::swap(&mut opp, &mut self.bids),
        }
        let mut fills: Vec<Fill> = Vec::new();
        let mut rem = qty;
        while rem > 0 && opp.len() > 0 && crosses_exec(taker, limit, opp[0].price)
            invariant
                parts_wf(taker, own0, opp@, self.lookup@),
                self.side_view(taker) == own0,
                ({
                    let m = match_spec(opp@, taker, limit, rem);
                    &&& m.0 == m0.0
                    &&& fills@ + m.1 == m0.1
                    &&& m.2 == m0.2
                }),
            decreases rem,
        {
            let head = opp[0];
            let ghost fills0 = fills@;
            let ghost opp_before = opp@;
            let ghost lk = self.lookup@;
            if rem < head.qty {
                let f = Fill { price: head.price, qty: rem, maker_id: head.id, maker_cl_id: head.cl_id };
                proof {
                    lemma_book_reduce_head(taker, own0, opp_before, lk, (head.qty - rem) as u64);
                }
                opp.set(0, Order { qty: head.qty - rem, ..head });
                fills.push(f);
                rem = 0;
                proof {
                    assert(fills@ =~= fills0 + seq![f]);
                    assert(fills@ + Seq::<Fill>::empty() =~= fills@);
                }
            } else {
                let f = Fill { price: head.price, qty: head.qty, maker_id: head.id, maker_cl_id: head.cl_id };
                proof {
                    lemma_book_pop_head(taker, own0, opp_before, lk);
                }
                opp.remove(0);
                self.lookup.remove(&head.id);
                fills.push(f);
                rem = rem - head.qty;
                proof {
                    assert(opp@ =~= opp_before.drop_first());
                    let m = match_spec(opp@, taker, limit, rem);
                    assert(fills@ + m.1 =~= fills0 + (seq![f] + m.1));
                }
            }
        }
        proof {
            assert(fills@ + Seq::<Fill>::empty() =~= fills@);
        }
        match taker {
            Side::Bid => std::mem::swap(&mut opp, &mut self.asks),
            Side::Ask => std::mem::swap(&mut opp, &mut self.bids),
        }
        (fills, rem)
    }
}

/// Every id in the lookup rests at exactly one place, on the side and at the price the
/// lookup records, and at no other place on either side; every resting id is in the lookup.
pub proof fn lemma_lookup_exact(b: &OrderBook, id: u64)
    requires
        b.wf(),
    ensures
        b.lookup@.contains_key(id) ==> ({
            let (side, price) = b.lookup@[id];
            let s = b.side_view(side);
            &&& exists|i: int| 0 <= i < s.len() && (#[trigger] s[i]).id == id && s[i].price == price
            &&& forall|i: int, j: int| 0 <= i < s.len() && 0 <= j < s.len() && (#[trigger] s[i]).id == id
                && (#[trigger] s[j]).id == id ==> i == j
            &&& !has_id(b.side_view(opposite(side)), id)
        }),
        !b.lookup@.contains_key(id) ==> !has_id(b.bids@, id) && !has_id(b.asks@, id),
{
    if b.lookup@.contains_key(id) {
        let (side, price) = b.lookup@[id];
        let s = b.side_view(side);
        if has_id(b.bids@, id) {
            let i = choose|i: int| 0 <= i < b.bids@.len() && #[trigger] b.bids@[i].id == id;
            assert(b.lookup@[b.bids@[i].id] == (Side::Bid, b.bids@[i].price));
        } else {
            let i = choose|i: int| 0 <= i < b.asks@.len() && #[trigger] b.asks@[i].id == id;
            assert(b.lookup@[b.asks@[i].id] == (Side::Ask, b.asks@[i].price));
        }
        lemma_not_on_side(opposite(side), b.side_view(opposite(side)), b.lookup@, id);
        assert forall|i: int, j: int| 0 <= i < s.len() && 0 <= j < s.len() && (#[trigger] s[i]).id == id
            && (#[trigger] s[j]).id == id implies i == j by {
            if i < j {
                assert(s[i].id != s[j].id);
            } else if j < i {
                assert(s[j].id != s[i].id);
            }
        }
    }
}

/// The book at rest is never crossed: every bid is below every ask.
pub proof fn lemma_not_crossed(b: &OrderBook)
    requires
        b.wf(),
    ensures
        forall|i: int, j: int|
            0 <= i < b.bids@.len() && 0 <= j < b.asks@.len() ==> (#[trigger] b.bids@[i]).price < (#[trigger] b.asks@[j]).price,
{
    assert forall|i: int, j: int|
        0 <= i < b.bids@.len() && 0 <= j < b.asks@.len() implies (#[trigger] b.bids@[i]).price < (#[trigger] b.asks@[j]).price by {
        if i > 0 {
            assert(at_least_as_good(Side::Bid, b.bids@[0].price, b.bids@[i].price));
        }
        if j > 0 {
            assert(at_least_as_good(Side::Ask, b.asks@[0].price, b.asks@[j].price));
        }
    }
}

impl Default for OrderBook {
    /// An empty book.
    fn default() -> (r: OrderBook)
        ensures
            r.wf(),
            r.bids@.len() == 0,
            r.asks@.len() == 0,
            r.lookup@ == Map::<u64, (Side, u64)>::empty(),
    {
        OrderBook::new()
    }
}

} // verus!
