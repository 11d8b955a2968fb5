use vstd::prelude::*;
use crate::types::{Side, OpenOrder, Level, LevelV, FillRec, Trade, CreateOrder};

verus! {

/// How much of a resting order is still unfilled.
pub open spec fn remaining(o: OpenOrder) -> int {
    o.quantity - o.filled_quantity
}

/// A resting order is sound for the level at `price` on the book side
/// `side`: it belongs to that side, carries the level's price, and still
/// has something left to fill.
pub open spec fn order_wf(o: OpenOrder, side: Side, price: u64) -> bool {
    o.side == side && o.price == price && o.filled_quantity < o.quantity
}

/// A price level is sound: it is never empty and every order in it is
/// sound for the level's price.
pub open spec fn level_wf(l: LevelV, side: Side) -> bool {
    l.orders.len() > 0 && forall|k: int|
        0 <= k < l.orders.len() ==> order_wf(#[trigger] l.orders[k], side, l.price)
}

/// `a` is a strictly better resting price than `b` for the book side
/// `side`: bids prefer high prices, asks low ones.
pub open spec fn better_price(a: u64, b: u64, side: Side) -> bool {
    match side {
        Side::Buy => a > b,
        Side::Sell => a < b,
    }
}

/// One side of the book is sound: every level is sound and the levels are
/// strictly ordered best price first.
pub open spec fn side_wf(levels: Seq<LevelV>, side: Side) -> bool {
    (forall|i: int| 0 <= i < levels.len() ==> level_wf(#[trigger] levels[i], side))
    && (forall|i: int, j: int|
        0 <= i < j < levels.len()
            ==> better_price(#[trigger] levels[i].price, #[trigger] levels[j].price, side))
}

/// Whether a resting level at `price` on book side `side` may match an
/// incoming order. An unbounded (market) sweep matches any level; a
/// bounded (limit) sweep matches asks at or below the limit and bids at or
/// above it.
pub open spec fn eligible(price: u64, side: Side, bounded: bool, bound: u64) -> bool {
    !bounded || (match side {
        Side::Sell => price <= bound,
        Side::Buy => price >= bound,
    })
}

/// Total unfilled quantity across a FIFO queue of orders.
pub open spec fn orders_remaining(orders: Seq<OpenOrder>) -> int
    decreases orders.len(),
{
    if orders.len() == 0 {
        0
    } else {
        remaining(orders[0]) + orders_remaining(orders.drop_first())
    }
}

/// Total unfilled quantity across a whole book side.
pub open spec fn levels_remaining(levels: Seq<LevelV>) -> int
    decreases levels.len(),
{
    if levels.len() == 0 {
        0
    } else {
        orders_remaining(levels[0].orders) + levels_remaining(levels.drop_first())
    }
}

/// Total unfilled quantity across the leading run of eligible levels.
/// On a sorted side the eligible levels are exactly a leading run.
pub open spec fn eligible_total(levels: Seq<LevelV>, side: Side, bounded: bool, bound: u64) -> int
    decreases levels.len(),
{
    if levels.len() == 0 {
        0
    } else if eligible(levels[0].price, side, bounded, bound) {
        orders_remaining(levels[0].orders) + eligible_total(levels.drop_first(), side, bounded, bound)
    } else {
        0
    }
}

/// The first order of a queue after `t` more units of it have filled.
pub open spec fn fill_first(o: OpenOrder, t: int) -> OpenOrder {
    OpenOrder { filled_quantity: (o.filled_quantity + t) as u64, ..o }
}

/// The FIFO queue after `t` units have been taken from its front: fully
/// consumed orders leave, one order may be left partially filled.
pub open spec fn take_orders(orders: Seq<OpenOrder>, t: int) -> Seq<OpenOrder>
    decreases orders.len(),
{
    if orders.len() == 0 || t <= 0 {
        orders
    } else if t >= remaining(orders[0]) {
        take_orders(orders.drop_first(), t - remaining(orders[0]))
    } else {
        seq![fill_first(orders[0], t)] + orders.drop_first()
    }
}

/// The fills generated by taking `t` units from the front of a queue
/// resting at `price`, in matching order.
pub open spec fn fills_orders(orders: Seq<OpenOrder>, t: int, price: u64) -> Seq<FillRec>
    decreases orders.len(),
{
    if orders.len() == 0 || t <= 0 {
        Seq::empty()
    } else if t >= remaining(orders[0]) {
        seq![FillRec { price: price, qty: remaining(orders[0]) as u64, maker: orders[0].user_id }]
            + fills_orders(orders.drop_first(), t - remaining(orders[0]), price)
    } else {
        seq![FillRec { price: price, qty: t as u64, maker: orders[0].user_id }]
    }
}

/// One side of the book after `t` units have been taken from its best
/// levels: exhausted levels leave, one level may be left partially taken.
pub open spec fn take_levels(levels: Seq<LevelV>, t: int) -> Seq<LevelV>
    decreases levels.len(),
{
    if levels.len() == 0 || t <= 0 {
        levels
    } else if t >= orders_remaining(levels[0].orders) {
        take_levels(levels.drop_first(), t - orders_remaining(levels[0].orders))
    } else {
        seq![LevelV { price: levels[0].price, orders: take_orders(levels[0].orders, t) }]
            + levels.drop_first()
    }
}

/// The fills generated by taking `t` units from one side of the book,
/// best level first, FIFO within each level.
pub open spec fn fills_levels(levels: Seq<LevelV>, t: int) -> Seq<FillRec>
    decreases levels.len(),
{
    if levels.len() == 0 || t <= 0 {
        Seq::empty()
    } else if t >= orders_remaining(levels[0].orders) {
        fills_orders(levels[0].orders, orders_remaining(levels[0].orders), levels[0].price)
            + fills_levels(levels.drop_first(), t - orders_remaining(levels[0].orders))
    } else {
        fills_orders(levels[0].orders, t, levels[0].price)
    }
}

/// One side of the book after a new order comes to rest in it: appended to
/// the queue of its own price level, or opening a new level at its sorted
/// position.
pub open spec fn insert_level(levels: Seq<LevelV>, o: OpenOrder, side: Side) -> Seq<LevelV>
    decreases levels.len(),
{
    if levels.len() == 0 {
        seq![LevelV { price: o.price, orders: seq![o] }]
    } else if better_price(levels[0].price, o.price, side) {
        seq![levels[0]] + insert_level(levels.drop_first(), o, side)
    } else if levels[0].price == o.price {
        seq![LevelV { price: levels[0].price, orders: levels[0].orders.push(o) }]
            + levels.drop_first()
    } else {
        seq![LevelV { price: o.price, orders: seq![o] }] + levels
    }
}

/// A FIFO queue with every order of the given identifier removed,
/// relative order of the rest preserved.
pub open spec fn remove_id_orders(orders: Seq<OpenOrder>, id: u64) -> Seq<OpenOrder>
    decreases orders.len(),
{
    if orders.len() == 0 {
        orders
    } else if orders[0].order_id == id {
        remove_id_orders(orders.drop_first(), id)
    } else {
        seq![orders[0]] + remove_id_orders(orders.drop_first(), id)
    }
}

/// One side of the book with every order of the given identifier removed;
/// a level left empty leaves with it.
pub open spec fn remove_id_levels(levels: Seq<LevelV>, id: u64) -> Seq<LevelV>
    decreases levels.len(),
{
    if levels.len() == 0 {
        levels
    } else {
        let kept = remove_id_orders(levels[0].orders, id);
        let rest = remove_id_levels(levels.drop_first(), id);
        if kept.len() == 0 {
            rest
        } else {
            seq![LevelV { price: levels[0].price, orders: kept }] + rest
        }
    }
}

/// Whether some order in the queue carries the given identifier.
pub open spec fn orders_contain_id(orders: Seq<OpenOrder>, id: u64) -> bool {
    exists|k: int| 0 <= k < orders.len() && orders[k].order_id == id
}

/// Whether some order on this side of the book carries the identifier.
pub open spec fn levels_contain_id(levels: Seq<LevelV>, id: u64) -> bool {
    exists|i: int| 0 <= i < levels.len() && orders_contain_id(levels[i].orders, id)
}

/// The mathematical image of one side of the book.
pub open spec fn levels_v(v: Vec<Level>) -> Seq<LevelV> {
    v@.map_values(|l: Level| l@)
}

/// The smaller of two quantities.
pub open spec fn min2(a: int, b: int) -> int {
    if a <= b {
        a
    } else {
        b
    }
}

/// The total quantity across a sequence of fills.
pub open spec fn sum_fills(fs: Seq<FillRec>) -> int
    decreases fs.len(),
{
    if fs.len() == 0 {
        0
    } else {
        fs[0].qty + sum_fills(fs.drop_first())
    }
}

/// The total quantity across a sequence of trades.
pub open spec fn sum_trades(ts: Seq<Trade>) -> int
    decreases ts.len(),
{
    if ts.len() == 0 {
        0
    } else {
        ts[0].quantity + sum_trades(ts.drop_first())
    }
}

/// A recorded trade matches a fill taken by `taker`: same price and
/// quantity, and buyer and seller placed by the taker's side.
pub open spec fn trade_matches(t: Trade, f: FillRec, taker: String, taker_side: Side) -> bool {
    t.price == f.price && t.quantity == f.qty && (match taker_side {
        Side::Buy => t.buyer_id == taker && t.seller_id == f.maker,
        Side::Sell => t.buyer_id == f.maker && t.seller_id == taker,
    })
}

/// The ledger grew by exactly one trade per fill, in fill order, with the
/// earlier ledger untouched.
pub open spec fn trades_extended(
    old_trades: Seq<Trade>,
    new_trades: Seq<Trade>,
    fs: Seq<FillRec>,
    taker: String,
    taker_side: Side,
) -> bool {
    new_trades.len() == old_trades.len() + fs.len()
    && (forall|i: int| 0 <= i < old_trades.len() ==> new_trades[i] == #[trigger] old_trades[i])
    && (forall|i: int|
        0 <= i < fs.len()
            ==> trade_matches(new_trades[old_trades.len() + i], #[trigger] fs[i], taker, taker_side))
}

/// The opposite side of the market.
pub open spec fn opposite(side: Side) -> Side {
    match side {
        Side::Buy => Side::Sell,
        Side::Sell => Side::Buy,
    }
}

/// A fresh incoming limit order after `filled` of its units matched on
/// arrival: what rests is the unmatched remainder.
pub open spec fn rest_of(o: OpenOrder, filled: int) -> OpenOrder {
    OpenOrder { quantity: (o.quantity - filled) as u64, filled_quantity: 0u64, ..o }
}

/// The order that comes to rest after a create request filled `filled`
/// units on arrival and was assigned identifier `id`.
pub open spec fn rest_order(o: CreateOrder, id: u64, filled: int) -> OpenOrder {
    OpenOrder {
        price: o.price,
        quantity: (o.quantity - filled) as u64,
        side: o.side,
        user_id: o.user_id,
        order_id: id,
        filled_quantity: 0u64,
    }
}

} // verus!
