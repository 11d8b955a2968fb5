use vstd::prelude::*;
use crate::types::{Side, OrderType, OpenOrder, Level, LevelV, FillRec, Trade, CreateOrder, CreateOrderResponse, DeleteOrder, Depth, DepthResponse};
use crate::model::{
    remaining, orders_remaining, take_orders, fills_orders, min2, fill_first,
    level_wf, side_wf, eligible, eligible_total, take_levels, fills_levels, levels_v,
    levels_remaining, insert_level, rest_of, rest_order, remove_id_levels, better_price,
    trades_extended, trade_matches, opposite, remove_id_orders,
};
use crate::lemmas::{
    orders_bounded, lemma_orders_remaining_nonneg, lemma_orders_remaining_lower,
    lemma_eligible_total_nonneg, lemma_take_orders_wf, lemma_take_orders_conserves,
    lemma_unbounded_total, lemma_insert_level_at, lemma_insert_level_wf,
    lemma_remove_orders_wf, lemma_orders_remaining_snoc,
    lemma_levels_remaining_nonneg,
};

verus! {

/// The whole market state: the two books, the identifier counter, and
/// the trade ledger.
pub struct OrderBook {
    pub bids: Vec<Level>,
    pub asks: Vec<Level>,
    pub order_id_index: u64,
    pub trades: Vec<Trade>,
}

/// The book the incoming side of an order matches against.
pub open spec fn opp_levels(b: OrderBook, side: Side) -> Seq<LevelV> {
    match side {
        Side::Buy => levels_v(b.asks),
        Side::Sell => levels_v(b.bids),
    }
}

/// The book an unmatched remainder of an order would rest in.
pub open spec fn own_levels(b: OrderBook, side: Side) -> Seq<LevelV> {
    match side {
        Side::Buy => levels_v(b.bids),
        Side::Sell => levels_v(b.asks),
    }
}

/// How much of a create request matches on arrival: a market order may
/// reach the whole opposite book, a limit order only the levels its
/// price reaches.
pub open spec fn spec_filled(b: OrderBook, o: CreateOrder) -> int {
    match o.order_type {
        OrderType::Market => min2(o.quantity as int, levels_remaining(opp_levels(b, o.side))),
        OrderType::Limit => min2(
            o.quantity as int,
            eligible_total(opp_levels(b, o.side), opposite(o.side), true, o.price),
        ),
    }
}

/// Everything a create request does to the book state: the opposite side
/// is swept for `filled` units, the remainder of a limit order comes to
/// rest on its own side (a market order never rests), and the ledger
/// grows by one trade per fill.
pub open spec fn create_effect(pre: OrderBook, post: OrderBook, o: CreateOrder, filled: int) -> bool {
    opp_levels(post, o.side) == take_levels(opp_levels(pre, o.side), filled)
    && (match o.order_type {
        OrderType::Market => own_levels(post, o.side) == own_levels(pre, o.side),
        OrderType::Limit => if filled < o.quantity {
            own_levels(post, o.side) == insert_level(
                own_levels(pre, o.side),
                rest_order(o, pre.order_id_index, filled),
                o.side,
            )
        } else {
            own_levels(post, o.side) == own_levels(pre, o.side)
        },
    })
    && trades_extended(
        pre.trades@,
        post.trades@,
        fills_levels(opp_levels(pre, o.side), filled),
        o.user_id,
        o.side,
    )
}

impl OrderBook {
    /// Both sides are sound: levels sorted best price first, no empty
    /// level, and every resting order on the right side, at its level's
    /// price, with something left to fill.
    pub open spec fn wf(self) -> bool {
        side_wf(levels_v(self.bids), Side::Buy) && side_wf(levels_v(self.asks), Side::Sell)
    }

    /// Append one trade to the ledger, stamped with the current time.
    fn record_trade(&mut self, price: u64, quantity: u64, buyer_id: String, seller_id: String)
        ensures
            final(self).bids == old(self).bids,
            final(self).asks == old(self).asks,
            final(self).order_id_index == old(self).order_id_index,
            final(self).trades@.len() == old(self).trades@.len() + 1,
            forall|i: int|
                0 <= i < old(self).trades@.len()
                    ==> final(self).trades@[i] == #[trigger] old(self).trades@[i],
            final(self).trades@.last().price == price,
            final(self).trades@.last().quantity == quantity,
            final(self).trades@.last().buyer_id == buyer_id,
            final(self).trades@.last().seller_id == seller_id,
    {
        let timestamp = crate::clock::unix_now();
        self.trades.push(Trade {
            price: price,
            quantity: quantity,
            buyer_id: buyer_id,
            seller_id: seller_id,
            timestamp: timestamp,
        });
    }

    /// Record one trade per fill, in fill order, with buyer and seller
    /// placed by the taker's side.
    fn record_fills(&mut self, fills: &Vec<FillRec>, taker: &String, taker_side: Side)
        ensures
            final(self).bids == old(self).bids,
            final(self).asks == old(self).asks,
            final(self).order_id_index == old(self).order_id_index,
            trades_extended(old(self).trades@, final(self).trades@, fills@, *taker, taker_side),
    {
        let ghost ob = self.bids;
        let ghost oa = self.asks;
        let ghost oi = self.order_id_index;
        let ghost ot = self.trades@;
        let mut i: usize = 0;
        while i < fills.len()
            invariant
                i <= fills@.len(),
                self.bids == ob,
                self.asks == oa,
                self.order_id_index == oi,
                self.trades@.len() == ot.len() + i,
                forall|k: int| 0 <= k < ot.len() ==> self.trades@[k] == #[trigger] ot[k],
                forall|k: int|
                    0 <= k < i
                        ==> trade_matches(self.trades@[ot.len() + k], #[trigger] fills@[k], *taker, taker_side),
            decreases fills@.len() - i,
        {
            let f = &fills[i];
            match taker_side {
                Side::Buy => self.record_trade(f.price, f.qty, taker.clone(), f.maker.clone()),
                Side::Sell => self.record_trade(f.price, f.qty, f.maker.clone(), taker.clone()),
            }
            proof {
                assert(self.trades@.last() == self.trades@[ot.len() + i]);
                assert(trade_matches(self.trades@[ot.len() + i], fills@[i as int], *taker, taker_side));
            }
            i = i + 1;
        }
    }

    /// Match a market buy against the ask book: sweep the lowest-priced
    /// asks first, FIFO within each level, until the request or the book
    /// is exhausted. Returns the quantity filled; the remainder is
    /// discarded, never rested.
    fn match_market_buy(&mut self, quantity: u64, user_id: &String) -> (filled: u64)
        requires
            old(self).wf(),
        ensures
            final(self).wf(),
            filled as int == min2(quantity as int, levels_remaining(levels_v(old(self).asks))),
            levels_v(final(self).asks) == take_levels(levels_v(old(self).asks), filled as int),
            final(self).bids == old(self).bids,
            final(self).order_id_index == old(self).order_id_index,
            trades_extended(
                old(self).trades@,
                final(self).trades@,
                fills_levels(levels_v(old(self).asks), filled as int),
                *user_id,
                Side::Buy,
            ),
    {
        let ghost oasks = levels_v(self.asks);
        let mut fills: Vec<FillRec> = Vec::new();
        let filled = sweep_book(&mut self.asks, Side::Sell, false, 0, quantity, &mut fills);
        proof {
            lemma_unbounded_total(oasks, Side::Sell, 0);
            assert(Seq::<FillRec>::empty() + fills_levels(oasks, filled as int)
                =~= fills_levels(oasks, filled as int));
        }
        self.record_fills(&fills, user_id, Side::Buy);
        filled
    }

    /// Match a market sell against the bid book: sweep the highest-priced
    /// bids first, FIFO within each level. Returns the quantity filled;
    /// the remainder is discarded, never rested.
    fn match_market_sell(&mut self, quantity: u64, user_id: &String) -> (filled: u64)
        requires
            old(self).wf(),
        ensures
            final(self).wf(),
            filled as int == min2(quantity as int, levels_remaining(levels_v(old(self).bids))),
            levels_v(final(self).bids) == take_levels(levels_v(old(self).bids), filled as int),
            final(self).asks == old(self).asks,
            final(self).order_id_index == old(self).order_id_index,
            trades_extended(
                old(self).trades@,
                final(self).trades@,
                fills_levels(levels_v(old(self).bids), filled as int),
                *user_id,
                Side::Sell,
            ),
    {
        let ghost obids = levels_v(self.bids);
        let mut fills: Vec<FillRec> = Vec::new();
        let filled = sweep_book(&mut self.bids, Side::Buy, false, 0, quantity, &mut fills);
        proof {
            lemma_unbounded_total(obids, Side::Buy, 0);
            assert(Seq::<FillRec>::empty() + fills_levels(obids, filled as int)
                =~= fills_levels(obids, filled as int));
        }
        self.record_fills(&fills, user_id, Side::Sell);
        filled
    }

    /// Match a limit buy against the asks its price reaches, lowest
    /// first, FIFO within each level; the unmatched remainder comes to
    /// rest in the bid book at the order's own price.
    fn match_limit_buy(&mut self, order: OpenOrder) -> (filled: u64)
        requires
            old(self).wf(),
            order.side == Side::Buy,
            order.filled_quantity == 0,
        ensures
            final(self).wf(),
            filled <= order.quantity,
            filled as int == min2(
                order.quantity as int,
                eligible_total(levels_v(old(self).asks), Side::Sell, true, order.price),
            ),
            levels_v(final(self).asks) == take_levels(levels_v(old(self).asks), filled as int),
            final(self).order_id_index == old(self).order_id_index,
            trades_extended(
                old(self).trades@,
                final(self).trades@,
                fills_levels(levels_v(old(self).asks), filled as int),
                order.user_id,
                Side::Buy,
            ),
            filled < order.quantity ==> levels_v(final(self).bids) == insert_level(
                levels_v(old(self).bids),
                rest_of(order, filled as int),
                Side::Buy,
            ),
            filled == order.quantity ==> final(self).bids == old(self).bids,
    {
        let ghost oasks = levels_v(self.asks);
        let mut fills: Vec<FillRec> = Vec::new();
        let filled = sweep_book(&mut self.asks, Side::Sell, true, order.price, order.quantity, &mut fills);
        proof {
            lemma_eligible_total_nonneg(oasks, Side::Sell, true, order.price);
            assert(Seq::<FillRec>::empty() + fills_levels(oasks, filled as int)
                =~= fills_levels(oasks, filled as int));
        }
        self.record_fills(&fills, &order.user_id, Side::Buy);
        if filled < order.quantity {
            let rest = OpenOrder {
                price: order.price,
                quantity: order.quantity - filled,
                side: order.side,
                user_id: order.user_id,
                order_id: order.order_id,
                filled_quantity: 0,
            };
            proof {
                assert(rest == rest_of(order, filled as int));
            }
            insert_resting(&mut self.bids, rest, Side::Buy);
        }
        filled
    }

    /// Match a limit sell against the bids its price reaches, highest
    /// first, FIFO within each level; the unmatched remainder comes to
    /// rest in the ask book at the order's own price.
    fn match_limit_sell(&mut self, order: OpenOrder) -> (filled: u64)
        requires
            old(self).wf(),
            order.side == Side::Sell,
            order.filled_quantity == 0,
        ensures
            final(self).wf(),
            filled <= order.quantity,
            filled as int == min2(
                order.quantity as int,
                eligible_total(levels_v(old(self).bids), Side::Buy, true, order.price),
            ),
            levels_v(final(self).bids) == take_levels(levels_v(old(self).bids), filled as int),
            final(self).order_id_index == old(self).order_id_index,
            trades_extended(
                old(self).trades@,
                final(self).trades@,
                fills_levels(levels_v(old(self).bids), filled as int),
                order.user_id,
                Side::Sell,
            ),
            filled < order.quantity ==> levels_v(final(self).asks) == insert_level(
                levels_v(old(self).asks),
                rest_of(order, filled as int),
                Side::Sell,
            ),
            filled == order.quantity ==> final(self).asks == old(self).asks,
    {
        let ghost obids = levels_v(self.bids);
        let mut fills: Vec<FillRec> = Vec::new();
        let filled = sweep_book(&mut self.bids, Side::Buy, true, order.price, order.quantity, &mut fills);
        proof {
            lemma_eligible_total_nonneg(obids, Side::Buy, true, order.price);
            assert(Seq::<FillRec>::empty() + fills_levels(obids, filled as int)
                =~= fills_levels(obids, filled as int));
        }
        self.record_fills(&fills, &order.user_id, Side::Sell);
        if filled < order.quantity {
            let rest = OpenOrder {
                price: order.price,
                quantity: order.quantity - filled,
                side: order.side,
                user_id: order.user_id,
                order_id: order.order_id,
                filled_quantity: 0,
            };
            proof {
                assert(rest == rest_of(order, filled as int));
            }
            insert_resting(&mut self.asks, rest, Side::Sell);
        }
        filled
    }
}

/// Put a resting order into its side of the book: appended to the FIFO
/// queue of its own price level, or opening a new level at the sorted
/// position its price calls for.
fn insert_resting(levels: &mut Vec<Level>, order: OpenOrder, side: Side)
    requires
        side_wf(levels_v(*old(levels)), side),
        order.side == side,
        order.filled_quantity < order.quantity,
    ensures
        side_wf(levels_v(*final(levels)), side),
        levels_v(*final(levels)) == insert_level(levels_v(*old(levels)), order, side),
{
    let ghost orig = levels_v(*levels);
    let mut i: usize = 0;
    while i < levels.len() && ((side == Side::Buy && levels[i].price > order.price)
        || (side == Side::Sell && levels[i].price < order.price))
        invariant
            i <= levels@.len(),
            levels_v(*levels) == orig,
            forall|j: int| 0 <= j < i ==> better_price((#[trigger] orig[j]).price, order.price, side),
        decreases levels@.len() - i,
    {
        proof {
            assert(orig[i as int].price == levels@[i as int].price);
        }
        i = i + 1;
    }
    proof {
        if i < levels@.len() {
            assert(orig[i as int].price == levels@[i as int].price);
            assert(!better_price(orig[i as int].price, order.price, side));
        }
        lemma_insert_level_at(orig, order, side, i as int);
        lemma_insert_level_wf(orig, order, side);
    }
    if i < levels.len() && levels[i].price == order.price {
        let mut lev = levels.remove(i);
        lev.orders.push(order);
        levels.insert(i, lev);
        proof {
            let up = LevelV { price: orig[i as int].price, orders: orig[i as int].orders.push(order) };
            assert(lev@ =~= up);
            assert(levels_v(*levels) =~= orig.update(i as int, up));
        }
    } else {
        let mut v: Vec<OpenOrder> = Vec::new();
        v.push(order);
        let price = v[0].price;
        levels.insert(i, Level { price: price, orders: v });
        proof {
            let nl = LevelV { price: order.price, orders: seq![order] };
            assert(levels_v(*levels) =~= orig.insert(i as int, nl));
        }
    }
}

/// Fill up to `quantity` units against the FIFO queue of one price level.
/// Fully consumed orders leave the queue; at most one order is left
/// partially filled at the front. One fill per order touched is appended
/// to `fills`, earliest resting order first.
fn sweep_level(orders: &mut Vec<OpenOrder>, price: u64, quantity: u64, fills: &mut Vec<FillRec>) -> (taken: u64)
    requires
        forall|k: int|
            0 <= k < old(orders)@.len()
                ==> (#[trigger] old(orders)@[k]).filled_quantity < old(orders)@[k].quantity,
    ensures
        taken as int == min2(quantity as int, orders_remaining(old(orders)@)),
        final(orders)@ == take_orders(old(orders)@, taken as int),
        final(fills)@ == old(fills)@ + fills_orders(old(orders)@, taken as int, price),
{
    let ghost orig = orders@;
    let ghost origf = fills@;
    let ghost tt = min2(quantity as int, orders_remaining(orig));
    let mut rem: u64 = quantity;
    let mut taken: u64 = 0;
    proof {
        lemma_orders_remaining_nonneg(orig);
    }
    while rem > 0 && orders.len() > 0
        invariant
            forall|k: int|
                0 <= k < orders@.len()
                    ==> (#[trigger] orders@[k]).filled_quantity < orders@[k].quantity,
            rem <= quantity,
            taken == quantity - rem,
            tt == taken + min2(rem as int, orders_remaining(orders@)),
            take_orders(orig, tt) == take_orders(orders@, tt - taken),
            origf + fills_orders(orig, tt, price) == fills@ + fills_orders(orders@, tt - taken, price),
        decreases rem,
    {
        let ghost cur = orders@;
        let ghost curf = fills@;
        let ghost r0 = remaining(cur[0]);
        proof {
            assert(orders_bounded(cur.drop_first()));
            lemma_orders_remaining_nonneg(cur.drop_first());
            assert(orders_remaining(cur) == r0 + orders_remaining(cur.drop_first()));
        }
        let avail = orders[0].quantity - orders[0].filled_quantity;
        if rem >= avail {
            let o = orders.remove(0);
            rem = rem - avail;
            taken = taken + avail;
            fills.push(FillRec { price: price, qty: avail, maker: o.user_id });
            proof {
                assert(orders@ =~= cur.drop_first());
                let t_cur = min2((quantity - taken + avail) as int, orders_remaining(cur));
                assert(t_cur >= r0);
                assert(take_orders(cur, t_cur) == take_orders(cur.drop_first(), t_cur - r0));
                let f0 = FillRec { price: price, qty: r0 as u64, maker: cur[0].user_id };
                assert(fills_orders(cur, t_cur, price)
                    == seq![f0] + fills_orders(cur.drop_first(), t_cur - r0, price));
                assert(fills@ =~= curf.push(f0));
                assert(curf + (seq![f0] + fills_orders(cur.drop_first(), t_cur - r0, price))
                    =~= curf.push(f0) + fills_orders(cur.drop_first(), t_cur - r0, price));
            }
        } else {
            let mut o = orders.remove(0);
            o.filled_quantity = o.filled_quantity + rem;
            fills.push(FillRec { price: price, qty: rem, maker: o.user_id.clone() });
            orders.insert(0, o);
            taken = taken + rem;
            proof {
                let t_cur = min2(rem as int, orders_remaining(cur));
                assert(t_cur == rem);
                assert(o == fill_first(cur[0], rem as int));
                assert(orders@ =~= seq![o] + cur.drop_first());
                assert(take_orders(cur, rem as int) == seq![fill_first(cur[0], rem as int)] + cur.drop_first());
                let f0 = FillRec { price: price, qty: rem, maker: cur[0].user_id };
                assert(fills_orders(cur, rem as int, price) == seq![f0]);
                assert(fills@ =~= curf.push(f0));
                assert(curf + seq![f0] =~= curf.push(f0));
                assert(orders_bounded(orders@));
                lemma_orders_remaining_nonneg(orders@);
                assert(take_orders(orders@, 0) == orders@);
                assert(fills_orders(orders@, 0, price) =~= Seq::<FillRec>::empty());
                assert(fills@ + Seq::<FillRec>::empty() =~= fills@);
            }
            rem = 0;
        }
    }
    proof {
        assert(orders_bounded(orders@));
        lemma_orders_remaining_nonneg(orders@);
        if rem == 0 {
            assert(min2(rem as int, orders_remaining(orders@)) == 0);
        } else {
            assert(orders@.len() == 0);
            assert(orders_remaining(orders@) == 0);
        }
        assert(tt == taken as int);
        assert(take_orders(orders@, 0) == orders@);
        assert(fills_orders(orders@, 0, price) =~= Seq::<FillRec>::empty());
        assert(fills@ + Seq::<FillRec>::empty() =~= fills@);
    }
    taken
}

/// Fill up to `quantity` units against one side of the book, best price
/// first, FIFO within each level. A bounded sweep stops at the first
/// level whose price the incoming limit does not reach. Exhausted levels
/// leave the book; fills are appended in matching order.
fn sweep_book(
    levels: &mut Vec<Level>,
    side: Side,
    bounded: bool,
    bound: u64,
    quantity: u64,
    fills: &mut Vec<FillRec>,
) -> (taken: u64)
    requires
        side_wf(levels_v(*old(levels)), side),
    ensures
        side_wf(levels_v(*final(levels)), side),
        taken as int == min2(quantity as int, eligible_total(levels_v(*old(levels)), side, bounded, bound)),
        levels_v(*final(levels)) == take_levels(levels_v(*old(levels)), taken as int),
        final(fills)@ == old(fills)@ + fills_levels(levels_v(*old(levels)), taken as int),
{
    let ghost orig = levels_v(*levels);
    let ghost origf = fills@;
    let ghost tt = min2(quantity as int, eligible_total(orig, side, bounded, bound));
    let mut rem: u64 = quantity;
    let mut taken: u64 = 0;
    proof {
        lemma_eligible_total_nonneg(orig, side, bounded, bound);
    }
    while rem > 0 && levels.len() > 0 && (!bounded
        || (side == Side::Sell && levels[0].price <= bound)
        || (side == Side::Buy && levels[0].price >= bound))
        invariant
            side_wf(levels_v(*levels), side),
            rem <= quantity,
            taken == quantity - rem,
            tt == taken + min2(rem as int, eligible_total(levels_v(*levels), side, bounded, bound)),
            take_levels(orig, tt) == take_levels(levels_v(*levels), tt - taken),
            origf + fills_levels(orig, tt) == fills@ + fills_levels(levels_v(*levels), tt - taken),
        decreases rem,
    {
        let ghost cur = levels_v(*levels);
        let ghost curf = fills@;
        let ghost lr0 = orders_remaining(cur[0].orders);
        proof {
            assert(level_wf(cur[0], side));
            assert(eligible(cur[0].price, side, bounded, bound));
            lemma_orders_remaining_lower(cur[0].orders, side, cur[0].price);
            assert(forall|i: int|
                0 <= i < cur.drop_first().len()
                    ==> level_wf(#[trigger] cur.drop_first()[i], side));
            lemma_eligible_total_nonneg(cur.drop_first(), side, bounded, bound);
            assert(eligible_total(cur, side, bounded, bound)
                == lr0 + eligible_total(cur.drop_first(), side, bounded, bound));
        }
        let mut lev = levels.remove(0);
        let ghost rem0 = rem as int;
        let t = sweep_level(&mut lev.orders, lev.price, rem, fills);
        rem = rem - t;
        taken = taken + t;
        proof {
            assert(levels_v(*levels) =~= cur.drop_first());
            lemma_take_orders_wf(cur[0].orders, t as int, side, cur[0].price);
            lemma_take_orders_conserves(cur[0].orders, t as int, cur[0].price);
        }
        if lev.orders.len() > 0 {
            levels.insert(0, lev);
            proof {
                let taken_orders = take_orders(cur[0].orders, t as int);
                lemma_orders_remaining_lower(taken_orders, side, cur[0].price);
                assert(orders_remaining(taken_orders) == lr0 - t);
                assert(t < lr0);
                assert(t == rem0);
                let lev0 = LevelV { price: cur[0].price, orders: taken_orders };
                assert(levels_v(*levels) =~= seq![lev0] + cur.drop_first());
                let tp = min2(rem0, eligible_total(cur, side, bounded, bound));
                assert(tp == rem0);
                assert(tt - (taken - t) == tp);
                assert(take_levels(cur, tp) == seq![lev0] + cur.drop_first());
                assert(fills_levels(cur, tp) == fills_orders(cur[0].orders, tp, cur[0].price));
                assert(curf + fills_orders(cur[0].orders, tp, cur[0].price) =~= fills@);
                assert(rem == 0);
                let curv = levels_v(*levels);
                assert(forall|i: int| 0 <= i < curv.len() ==> level_wf(#[trigger] curv[i], side));
                lemma_eligible_total_nonneg(curv, side, bounded, bound);
                assert(min2(rem as int, eligible_total(curv, side, bounded, bound)) == 0);
                assert(take_levels(curv, 0) == curv);
                assert(fills_levels(curv, 0) =~= Seq::<FillRec>::empty());
                assert(fills@ + Seq::<FillRec>::empty() =~= fills@);
                assert(side_wf(curv, side));
            }
        } else {
            proof {
                let taken_orders = take_orders(cur[0].orders, t as int);
                assert(orders_remaining(taken_orders) == 0);
                assert(t == lr0);
                let curv = levels_v(*levels);
                let tp = tt - (taken - t);
                assert(tp == min2(rem0, lr0 + eligible_total(curv, side, bounded, bound)));
                assert(tp >= lr0);
                assert(take_levels(cur, tp) == take_levels(curv, tp - lr0));
                assert(fills_levels(cur, tp)
                    == fills_orders(cur[0].orders, lr0, cur[0].price) + fills_levels(curv, tp - lr0));
                assert(curf + (fills_orders(cur[0].orders, lr0, cur[0].price) + fills_levels(curv, tp - lr0))
                    =~= (curf + fills_orders(cur[0].orders, lr0, cur[0].price)) + fills_levels(curv, tp - lr0));
                assert(curf + fills_orders(cur[0].orders, t as int, cur[0].price) =~= fills@);
                assert(tt == taken + min2(rem as int, eligible_total(curv, side, bounded, bound)));
            }
        }
    }
    proof {
        let curv = levels_v(*levels);
        lemma_eligible_total_nonneg(curv, side, bounded, bound);
        if rem == 0 {
            assert(min2(rem as int, eligible_total(curv, side, bounded, bound)) == 0);
        } else if levels@.len() == 0 {
            assert(curv.len() == 0);
            assert(eligible_total(curv, side, bounded, bound) == 0);
        } else {
            assert(curv[0].price == levels@[0].price);
            assert(!eligible(curv[0].price, side, bounded, bound));
            assert(eligible_total(curv, side, bounded, bound) == 0);
        }
        assert(tt == taken as int);
        assert(take_levels(curv, 0) == curv);
        assert(fills_levels(curv, 0) =~= Seq::<FillRec>::empty());
        assert(fills@ + Seq::<FillRec>::empty() =~= fills@);
    }
    taken
}

/// Drop every order carrying the given identifier from one FIFO queue,
/// keeping the rest in their relative order.
fn retain_unmatched(orders: &mut Vec<OpenOrder>, order_id: u64)
    ensures
        final(orders)@ == remove_id_orders(old(orders)@, order_id),
{
    let ghost orig = orders@;
    let mut result: Vec<OpenOrder> = Vec::new();
    proof {
        assert(Seq::<OpenOrder>::empty() + remove_id_orders(orig, order_id)
            =~= remove_id_orders(orig, order_id));
    }
    while orders.len() > 0
        invariant
            remove_id_orders(orig, order_id) == result@ + remove_id_orders(orders@, order_id),
        decreases orders@.len(),
    {
        let ghost cur = orders@;
        let ghost res = result@;
        let o = orders.remove(0);
        proof {
            assert(orders@ =~= cur.drop_first());
        }
        if o.order_id != order_id {
            result.push(o);
            proof {
                assert(remove_id_orders(cur, order_id)
                    == seq![cur[0]] + remove_id_orders(cur.drop_first(), order_id));
                assert(res + (seq![cur[0]] + remove_id_orders(cur.drop_first(), order_id))
                    =~= res.push(cur[0]) + remove_id_orders(cur.drop_first(), order_id));
            }
        }
    }
    proof {
        assert(remove_id_orders(orders@, order_id) =~= Seq::<OpenOrder>::empty());
        assert(result@ + Seq::<OpenOrder>::empty() =~= result@);
    }
    *orders = result;
}

/// Drop the order carrying the given identifier from one side of the
/// book; a level left with no orders leaves the book with it.
fn remove_resting(levels: &mut Vec<Level>, order_id: u64, Ghost(side): Ghost<Side>)
    requires
        side_wf(levels_v(*old(levels)), side),
    ensures
        side_wf(levels_v(*final(levels)), side),
        levels_v(*final(levels)) == remove_id_levels(levels_v(*old(levels)), order_id),
{
    let ghost orig = levels_v(*levels);
    let mut result: Vec<Level> = Vec::new();
    proof {
        assert(levels_v(result) =~= Seq::<LevelV>::empty());
        assert(Seq::<LevelV>::empty() + remove_id_levels(orig, order_id)
            =~= remove_id_levels(orig, order_id));
    }
    while levels.len() > 0
        invariant
            remove_id_levels(orig, order_id)
                == levels_v(result) + remove_id_levels(levels_v(*levels), order_id),
            side_wf(levels_v(result), side),
            side_wf(levels_v(*levels), side),
            forall|a: int, b: int|
                0 <= a < levels_v(result).len() && 0 <= b < levels_v(*levels).len()
                    ==> better_price(
                        (#[trigger] levels_v(result)[a]).price,
                        (#[trigger] levels_v(*levels)[b]).price,
                        side,
                    ),
        decreases levels@.len(),
    {
        let ghost cur = levels_v(*levels);
        let ghost res = levels_v(result);
        let mut lev = levels.remove(0);
        proof {
            assert(levels_v(*levels) =~= cur.drop_first());
            assert(level_wf(cur[0], side));
        }
        retain_unmatched(&mut lev.orders, order_id);
        proof {
            lemma_remove_orders_wf(cur[0].orders, order_id, side, cur[0].price);
        }
        let ghost kept = remove_id_orders(cur[0].orders, order_id);
        if lev.orders.len() > 0 {
            result.push(lev);
            proof {
                let lv = LevelV { price: cur[0].price, orders: kept };
                assert(lev@ =~= lv);
                assert(levels_v(result) =~= res.push(lv));
                assert(remove_id_levels(cur, order_id)
                    == seq![lv] + remove_id_levels(cur.drop_first(), order_id));
                assert(res + (seq![lv] + remove_id_levels(cur.drop_first(), order_id))
                    =~= res.push(lv) + remove_id_levels(cur.drop_first(), order_id));
                assert(level_wf(lv, side));
                assert forall|a: int, b: int|
                    0 <= a < b < levels_v(result).len() implies better_price(
                    (#[trigger] levels_v(result)[a]).price,
                    (#[trigger] levels_v(result)[b]).price,
                    side,
                ) by {
                    if b == levels_v(result).len() - 1 {
                        assert(levels_v(result)[a] == res[a]);
                        assert(better_price(res[a].price, cur[0].price, side));
                    } else {
                        assert(levels_v(result)[a] == res[a]);
                        assert(levels_v(result)[b] == res[b]);
                    }
                }
            }
        }
    }
    proof {
        assert(levels_v(*levels).len() == 0);
        assert(remove_id_levels(levels_v(*levels), order_id) =~= Seq::<LevelV>::empty());
        assert(levels_v(result) + Seq::<LevelV>::empty() =~= levels_v(result));
    }
    *levels = result;
}

/// The total unfilled quantity resting in one FIFO queue.
fn level_total(orders: &Vec<OpenOrder>) -> (total: u128)
    requires
        orders_bounded(orders@),
    ensures
        total as int == orders_remaining(orders@),
{
    let mut total: u128 = 0;
    let mut i: usize = 0;
    let n = orders.len();
    proof {
        assert(orders@.take(0) =~= Seq::<OpenOrder>::empty());
    }
    while i < n
        invariant
            i <= n,
            n == orders@.len(),
            orders_bounded(orders@),
            total as int == orders_remaining(orders@.take(i as int)),
            total as int <= i * (u64::MAX as int),
        decreases n - i,
    {
        let avail = orders[i].quantity - orders[i].filled_quantity;
        proof {
            assert(orders@.take(i + 1) =~= orders@.take(i as int).push(orders@[i as int]));
            lemma_orders_remaining_snoc(orders@.take(i as int), orders@[i as int]);
            assert(i * (u64::MAX as int) + u64::MAX as int == (i + 1) * (u64::MAX as int))
                by (nonlinear_arith);
            assert((i + 1) * (u64::MAX as int) <= 0x10000000000000000 * (u64::MAX as int))
                by (nonlinear_arith)
                requires i + 1 <= 0x10000000000000000int;
        }
        total = total + (avail as u128);
        i = i + 1;
    }
    proof {
        assert(orders@.take(n as int) =~= orders@);
    }
    total
}

/// One side of a depth snapshot: one line per level, in the book's own
/// (best price first) order, carrying the level's total unfilled
/// quantity.
fn depth_side(levels: &Vec<Level>, Ghost(side): Ghost<Side>) -> (out: Vec<Depth>)
    requires
        side_wf(levels_v(*levels), side),
    ensures
        out@.len() == levels_v(*levels).len(),
        forall|i: int|
            0 <= i < out@.len()
                ==> (#[trigger] out@[i]).price == levels_v(*levels)[i].price
                    && out@[i].quantity as int == orders_remaining(levels_v(*levels)[i].orders),
{
    let mut out: Vec<Depth> = Vec::new();
    let mut i: usize = 0;
    while i < levels.len()
        invariant
            i <= levels@.len(),
            side_wf(levels_v(*levels), side),
            out@.len() == i,
            forall|j: int|
                0 <= j < i
                    ==> (#[trigger] out@[j]).price == levels_v(*levels)[j].price
                        && out@[j].quantity as int == orders_remaining(levels_v(*levels)[j].orders),
        decreases levels@.len() - i,
    {
        proof {
            assert(level_wf(levels_v(*levels)[i as int], side));
        }
        let total = level_total(&levels[i].orders);
        proof {
            lemma_orders_remaining_lower(
                levels_v(*levels)[i as int].orders,
                side,
                levels_v(*levels)[i as int].price,
            );
            assert(total > 0);
        }
        if total > 0 {
            let price = levels[i].price;
            out.push(Depth { price: price, quantity: total });
        }
        i = i + 1;
    }
    out
}

impl OrderBook {
    /// Accept a create-order request: assign the next identifier, match
    /// by type and side, record the trades, rest any limit remainder,
    /// and report what filled. A market order's remainder is discarded.
    pub fn create_order(&mut self, order: CreateOrder) -> (r: CreateOrderResponse)
        requires
            old(self).wf(),
            old(self).order_id_index < u64::MAX,
        ensures
            final(self).wf(),
            final(self).order_id_index == old(self).order_id_index + 1,
            r.order_id == old(self).order_id_index,
            r.filled_quantity as int == spec_filled(*old(self), order),
            r.filled_quantity <= order.quantity,
            r.remaining_quantity == order.quantity - r.filled_quantity,
            order.order_type == OrderType::Market ==> r.average_price == 0,
            order.order_type == OrderType::Limit ==> r.average_price == order.price,
            create_effect(*old(self), *final(self), order, r.filled_quantity as int),
    {
        let order_id = self.order_id_index;
        self.order_id_index = self.order_id_index + 1;
        match order.order_type {
            OrderType::Market => {
                let filled = match order.side {
                    Side::Buy => self.match_market_buy(order.quantity, &order.user_id),
                    Side::Sell => self.match_market_sell(order.quantity, &order.user_id),
                };
                proof {
                    match order.side {
                        Side::Buy => lemma_levels_remaining_nonneg(
                            levels_v(old(self).asks),
                            Side::Sell,
                        ),
                        Side::Sell => lemma_levels_remaining_nonneg(
                            levels_v(old(self).bids),
                            Side::Buy,
                        ),
                    }
                }
                CreateOrderResponse {
                    order_id: order_id,
                    filled_quantity: filled,
                    remaining_quantity: order.quantity - filled,
                    average_price: 0,
                }
            }
            OrderType::Limit => {
                let open_order = OpenOrder {
                    price: order.price,
                    quantity: order.quantity,
                    side: order.side,
                    user_id: order.user_id,
                    order_id: order_id,
                    filled_quantity: 0,
                };
                let ghost oo = open_order;
                let filled = match order.side {
                    Side::Buy => self.match_limit_buy(open_order),
                    Side::Sell => self.match_limit_sell(open_order),
                };
                proof {
                    if filled < order.quantity {
                        assert(rest_of(oo, filled as int)
                            == rest_order(order, old(self).order_id_index, filled as int));
                    }
                }
                CreateOrderResponse {
                    order_id: order_id,
                    filled_quantity: filled,
                    remaining_quantity: order.quantity - filled,
                    average_price: order.price,
                }
            }
        }
    }

    /// Cancel a resting order by identifier: remove it from whichever
    /// book holds it. An unknown identifier changes nothing; no error is
    /// raised either way.
    pub fn delete_order(&mut self, order: DeleteOrder)
        requires
            old(self).wf(),
        ensures
            final(self).wf(),
            levels_v(final(self).bids) == remove_id_levels(levels_v(old(self).bids), order.order_id),
            levels_v(final(self).asks) == remove_id_levels(levels_v(old(self).asks), order.order_id),
            final(self).order_id_index == old(self).order_id_index,
            final(self).trades == old(self).trades,
    {
        remove_resting(&mut self.bids, order.order_id, Ghost(Side::Buy));
        remove_resting(&mut self.asks, order.order_id, Ghost(Side::Sell));
    }

    /// A read-only depth snapshot: one line per price level on each
    /// side, carrying the sum of unfilled quantities resting there, in
    /// the book's best-price-first order.
    pub fn get_depth(&self) -> (r: DepthResponse)
        requires
            self.wf(),
        ensures
            r.bids@.len() == levels_v(self.bids).len(),
            r.asks@.len() == levels_v(self.asks).len(),
            forall|i: int|
                0 <= i < r.bids@.len()
                    ==> (#[trigger] r.bids@[i]).price == levels_v(self.bids)[i].price
                        && r.bids@[i].quantity as int == orders_remaining(levels_v(self.bids)[i].orders),
            forall|i: int|
                0 <= i < r.asks@.len()
                    ==> (#[trigger] r.asks@[i]).price == levels_v(self.asks)[i].price
                        && r.asks@[i].quantity as int == orders_remaining(levels_v(self.asks)[i].orders),
    {
        let bids = depth_side(&self.bids, Ghost(Side::Buy));
        let asks = depth_side(&self.asks, Ghost(Side::Sell));
        DepthResponse { bids: bids, asks: asks }
    }

    /// A snapshot of the full trade ledger, oldest first.
    pub fn get_trades(&self) -> (r: &Vec<Trade>)
        ensures
            r@ == self.trades@,
    {
        &self.trades
    }
}

impl Default for OrderBook {
    /// The empty market: no resting orders, no trades, identifiers
    /// starting from zero.
    fn default() -> (r: Self)
        ensures
            r.wf(),
            r.bids@.len() == 0,
            r.asks@.len() == 0,
            r.order_id_index == 0,
            r.trades@.len() == 0,
    {
        OrderBook { bids: Vec::new(), asks: Vec::new(), order_id_index: 0, trades: Vec::new() }
    }
}

} // verus!
