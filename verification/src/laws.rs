use vstd::prelude::*;
use crate::types::{Side, OpenOrder, LevelV, FillRec, Trade, CreateOrder, OrderType};
use crate::model::{
    remaining, level_wf, side_wf, eligible, better_price,
    orders_remaining, levels_remaining, eligible_total,
    take_orders, fills_orders, take_levels, fills_levels,
    remove_id_orders, remove_id_levels, orders_contain_id, levels_contain_id,
    sum_fills, sum_trades, trades_extended, trade_matches,
};
use crate::orderbook::{OrderBook, create_effect, opp_levels, own_levels};
use crate::lemmas::{
    orders_bounded, lemma_orders_remaining_nonneg, lemma_take_orders_conserves,
};

verus! {

/// Every order of every level has its fill within its size.
pub open spec fn levels_bounded(levels: Seq<LevelV>) -> bool {
    forall|i: int| 0 <= i < levels.len() ==> orders_bounded((#[trigger] levels[i]).orders)
}

/// Splitting a fill sequence splits its total.
pub proof fn lemma_sum_fills_concat(a: Seq<FillRec>, b: Seq<FillRec>)
    ensures
        sum_fills(a + b) == sum_fills(a) + sum_fills(b),
    decreases a.len(),
{
    if a.len() == 0 {
        assert(a + b =~= b);
    } else {
        assert((a + b)[0] == a[0]);
        assert((a + b).drop_first() =~= a.drop_first() + b);
        lemma_sum_fills_concat(a.drop_first(), b);
        assert(sum_fills(a + b) == (a + b)[0].qty + sum_fills((a + b).drop_first()));
    }
}

/// Quantity conservation: taking `t` units from one side of the book
/// removes exactly `t` from the side's resting total, and the fills
/// generated sum to exactly `t`.
pub proof fn lemma_quantity_conservation(levels: Seq<LevelV>, t: int)
    requires
        levels_bounded(levels),
        0 <= t <= levels_remaining(levels),
    ensures
        sum_fills(fills_levels(levels, t)) == t,
        levels_remaining(take_levels(levels, t)) == levels_remaining(levels) - t,
    decreases levels.len(),
{
    if levels.len() == 0 || t <= 0 {
    } else {
        let lr0 = orders_remaining(levels[0].orders);
        let drop = levels.drop_first();
        assert(orders_bounded(levels[0].orders));
        lemma_orders_remaining_nonneg(levels[0].orders);
        assert(levels_bounded(drop));
        assert(levels_remaining(levels) == lr0 + levels_remaining(drop));
        if t >= lr0 {
            lemma_take_orders_conserves(levels[0].orders, lr0, levels[0].price);
            lemma_quantity_conservation(drop, t - lr0);
            lemma_sum_fills_concat(
                fills_orders(levels[0].orders, lr0, levels[0].price),
                fills_levels(drop, t - lr0),
            );
        } else {
            lemma_take_orders_conserves(levels[0].orders, t, levels[0].price);
            let res = take_levels(levels, t);
            assert(res[0].orders == take_orders(levels[0].orders, t));
            assert(res.drop_first() =~= drop);
            assert(levels_remaining(res)
                == orders_remaining(res[0].orders) + levels_remaining(res.drop_first()));
        }
    }
}

/// A bounded sweep can never reach more than the whole side holds.
pub proof fn lemma_eligible_le_total(levels: Seq<LevelV>, side: Side, bounded: bool, bound: u64)
    requires
        forall|i: int| 0 <= i < levels.len() ==> level_wf(#[trigger] levels[i], side),
    ensures
        eligible_total(levels, side, bounded, bound) <= levels_remaining(levels),
    decreases levels.len(),
{
    if levels.len() > 0 {
        let drop = levels.drop_first();
        assert(forall|i: int| 0 <= i < drop.len() ==> level_wf(#[trigger] drop[i], side));
        lemma_eligible_le_total(drop, side, bounded, bound);
        crate::lemmas::lemma_levels_remaining_nonneg(drop, side);
        crate::lemmas::lemma_orders_remaining_lower(levels[0].orders, side, levels[0].price);
    }
}

/// Quantity conservation across one create call: the ledger's total
/// traded quantity grows by exactly the fill the response reports, and
/// the opposite book's resting total shrinks by the same amount.
pub proof fn lemma_create_order_conserves(
    pre: OrderBook,
    post: OrderBook,
    o: CreateOrder,
    filled: int,
)
    requires
        pre.wf(),
        create_effect(pre, post, o, filled),
        filled == crate::orderbook::spec_filled(pre, o),
    ensures
        sum_trades(post.trades@) == sum_trades(pre.trades@) + filled,
        levels_remaining(opp_levels(post, o.side)) == levels_remaining(opp_levels(pre, o.side)) - filled,
{
    let opp = opp_levels(pre, o.side);
    let opp_side = crate::model::opposite(o.side);
    assert(side_wf(opp, opp_side));
    assert(levels_bounded(opp)) by {
        assert forall|i: int| 0 <= i < opp.len() implies orders_bounded((#[trigger] opp[i]).orders) by {
            assert(level_wf(opp[i], opp_side));
        }
    }
    crate::lemmas::lemma_levels_remaining_nonneg(opp, opp_side);
    crate::lemmas::lemma_eligible_total_nonneg(opp, opp_side, true, o.price);
    lemma_eligible_le_total(opp, opp_side, true, o.price);
    assert(0 <= filled <= levels_remaining(opp));
    lemma_quantity_conservation(opp, filled);
    lemma_ledger_conservation(
        pre.trades@,
        post.trades@,
        fills_levels(opp, filled),
        o.user_id,
        o.side,
    );
}

/// Every fill of one level carries that level's price.
pub proof fn lemma_fills_orders_price(orders: Seq<OpenOrder>, t: int, price: u64)
    ensures
        forall|k: int|
            0 <= k < fills_orders(orders, t, price).len()
                ==> (#[trigger] fills_orders(orders, t, price)[k]).price == price,
    decreases orders.len(),
{
    if orders.len() == 0 || t <= 0 {
    } else if t >= remaining(orders[0]) {
        lemma_fills_orders_price(orders.drop_first(), t - remaining(orders[0]), price);
        let fs = fills_orders(orders, t, price);
        assert forall|k: int| 0 <= k < fs.len() implies (#[trigger] fs[k]).price == price by {
            if k > 0 {
                assert(fs[k] == fills_orders(orders.drop_first(), t - remaining(orders[0]), price)[k - 1]);
            }
        }
    }
}

/// Price priority, first half: a bounded sweep never fills at a price
/// the incoming limit does not reach.
pub proof fn lemma_fills_within_limit(levels: Seq<LevelV>, side: Side, bound: u64, t: int)
    requires
        side_wf(levels, side),
        0 <= t <= eligible_total(levels, side, true, bound),
    ensures
        forall|k: int|
            0 <= k < fills_levels(levels, t).len()
                ==> eligible((#[trigger] fills_levels(levels, t)[k]).price, side, true, bound),
    decreases levels.len(),
{
    if levels.len() == 0 || t <= 0 {
    } else {
        assert(eligible(levels[0].price, side, true, bound));
        let lr0 = orders_remaining(levels[0].orders);
        let drop = levels.drop_first();
        lemma_fills_orders_price(levels[0].orders, if t >= lr0 { lr0 } else { t }, levels[0].price);
        if t >= lr0 {
            assert(forall|i: int| 0 <= i < drop.len() ==> level_wf(#[trigger] drop[i], side));
            assert(side_wf(drop, side));
            lemma_fills_within_limit(drop, side, bound, t - lr0);
            let a = fills_orders(levels[0].orders, lr0, levels[0].price);
            let b = fills_levels(drop, t - lr0);
            let fs = fills_levels(levels, t);
            assert(fs == a + b);
            assert forall|k: int| 0 <= k < fs.len() implies eligible((#[trigger] fs[k]).price, side, true, bound) by {
                if k < a.len() {
                    assert(fs[k] == a[k]);
                } else {
                    assert(fs[k] == b[k - a.len()]);
                }
            }
        }
    }
}

/// Prices better than `p` and than every level stay better than every
/// fill the sweep generates.
pub proof fn lemma_fills_levels_price_bound(levels: Seq<LevelV>, side: Side, t: int, p: u64)
    requires
        forall|j: int| 0 <= j < levels.len() ==> better_price(p, (#[trigger] levels[j]).price, side),
    ensures
        forall|k: int|
            0 <= k < fills_levels(levels, t).len()
                ==> better_price(p, (#[trigger] fills_levels(levels, t)[k]).price, side),
    decreases levels.len(),
{
    if levels.len() == 0 || t <= 0 {
    } else {
        let lr0 = orders_remaining(levels[0].orders);
        let drop = levels.drop_first();
        lemma_fills_orders_price(levels[0].orders, if t >= lr0 { lr0 } else { t }, levels[0].price);
        if t >= lr0 {
            assert(forall|j: int|
                0 <= j < drop.len() ==> better_price(p, (#[trigger] drop[j]).price, side));
            lemma_fills_levels_price_bound(drop, side, t - lr0, p);
            let a = fills_orders(levels[0].orders, lr0, levels[0].price);
            let b = fills_levels(drop, t - lr0);
            let fs = fills_levels(levels, t);
            assert(fs == a + b);
            assert forall|k: int| 0 <= k < fs.len() implies better_price(p, (#[trigger] fs[k]).price, side) by {
                if k < a.len() {
                    assert(fs[k] == a[k]);
                } else {
                    assert(fs[k] == b[k - a.len()]);
                }
            }
        }
    }
}

/// Price priority, second half: fills come best price first — no later
/// fill of one sweep carries a better price than an earlier one.
pub proof fn lemma_fills_best_price_first(levels: Seq<LevelV>, side: Side, t: int)
    requires
        side_wf(levels, side),
    ensures
        forall|i: int, j: int|
            0 <= i < j < fills_levels(levels, t).len()
                ==> !better_price(
                    (#[trigger] fills_levels(levels, t)[j]).price,
                    (#[trigger] fills_levels(levels, t)[i]).price,
                    side,
                ),
    decreases levels.len(),
{
    if levels.len() == 0 || t <= 0 {
    } else {
        let lr0 = orders_remaining(levels[0].orders);
        let drop = levels.drop_first();
        let p0 = levels[0].price;
        lemma_fills_orders_price(levels[0].orders, if t >= lr0 { lr0 } else { t }, p0);
        if t >= lr0 {
            assert(forall|i: int| 0 <= i < drop.len() ==> level_wf(#[trigger] drop[i], side));
            assert(side_wf(drop, side));
            lemma_fills_best_price_first(drop, side, t - lr0);
            assert(forall|j: int| 0 <= j < drop.len() ==> better_price(p0, (#[trigger] drop[j]).price, side));
            lemma_fills_levels_price_bound(drop, side, t - lr0, p0);
            let a = fills_orders(levels[0].orders, lr0, p0);
            let b = fills_levels(drop, t - lr0);
            let fs = fills_levels(levels, t);
            assert(fs == a + b);
            assert forall|i: int, j: int| 0 <= i < j < fs.len() implies !better_price(
                (#[trigger] fs[j]).price,
                (#[trigger] fs[i]).price,
                side,
            ) by {
                if j < a.len() {
                    assert(fs[i] == a[i]);
                    assert(fs[j] == a[j]);
                } else if i < a.len() {
                    assert(fs[i] == a[i]);
                    assert(fs[j] == b[j - a.len()]);
                    assert(better_price(p0, fs[j].price, side));
                } else {
                    assert(fs[i] == b[i - a.len()]);
                    assert(fs[j] == b[j - a.len()]);
                }
            }
        }
    }
}

/// FIFO fairness within one price level: the `i`-th fill goes to the
/// `i`-th resting order, and a later order receives anything only after
/// every earlier order's whole remainder was taken.
pub proof fn lemma_fifo_within_level(orders: Seq<OpenOrder>, t: int, price: u64)
    requires
        orders_bounded(orders),
        0 <= t <= orders_remaining(orders),
    ensures
        fills_orders(orders, t, price).len() <= orders.len(),
        forall|i: int|
            0 <= i < fills_orders(orders, t, price).len()
                ==> (#[trigger] fills_orders(orders, t, price)[i]).maker == orders[i].user_id,
        forall|i: int|
            0 <= i < fills_orders(orders, t, price).len() - 1
                ==> (#[trigger] fills_orders(orders, t, price)[i]).qty as int == remaining(orders[i]),
    decreases orders.len(),
{
    if orders.len() == 0 || t <= 0 {
    } else if t >= remaining(orders[0]) {
        assert(orders_bounded(orders.drop_first()));
        lemma_orders_remaining_nonneg(orders.drop_first());
        lemma_fifo_within_level(orders.drop_first(), t - remaining(orders[0]), price);
        let fs = fills_orders(orders, t, price);
        let rest = fills_orders(orders.drop_first(), t - remaining(orders[0]), price);
        assert(fs.drop_first() =~= rest);
        assert forall|i: int| 0 <= i < fs.len() implies (#[trigger] fs[i]).maker == orders[i].user_id by {
            if i > 0 {
                assert(fs[i] == rest[i - 1]);
                assert(orders.drop_first()[i - 1] == orders[i]);
            }
        }
        assert forall|i: int| 0 <= i < fs.len() - 1 implies (#[trigger] fs[i]).qty as int == remaining(orders[i]) by {
            if i > 0 {
                assert(fs[i] == rest[i - 1]);
                assert(orders.drop_first()[i - 1] == orders[i]);
            }
        }
    }
}

/// A queue that holds no order with the identifier still holds none
/// after a sweep took from it.
pub proof fn lemma_take_orders_preserves_absent(orders: Seq<OpenOrder>, t: int, id: u64)
    requires
        !orders_contain_id(orders, id),
    ensures
        !orders_contain_id(take_orders(orders, t), id),
    decreases orders.len(),
{
    if orders.len() == 0 || t <= 0 {
    } else if t >= remaining(orders[0]) {
        assert(forall|k: int|
            0 <= k < orders.drop_first().len()
                ==> (#[trigger] orders.drop_first()[k]).order_id != id);
        lemma_take_orders_preserves_absent(orders.drop_first(), t - remaining(orders[0]), id);
    } else {
        let r = take_orders(orders, t);
        assert forall|k: int| 0 <= k < r.len() implies (#[trigger] r[k]).order_id != id by {
            if k == 0 {
                assert(r[0].order_id == orders[0].order_id);
            } else {
                assert(r[k] == orders.drop_first()[k - 1]);
                assert(r[k] == orders[k]);
            }
        }
    }
}

/// A side that holds no order with the identifier still holds none
/// after a sweep took from it.
pub proof fn lemma_take_levels_preserves_absent(levels: Seq<LevelV>, t: int, id: u64)
    requires
        !levels_contain_id(levels, id),
    ensures
        !levels_contain_id(take_levels(levels, t), id),
    decreases levels.len(),
{
    if levels.len() == 0 || t <= 0 {
    } else {
        let lr0 = orders_remaining(levels[0].orders);
        let drop = levels.drop_first();
        assert(!orders_contain_id(levels[0].orders, id));
        assert forall|i: int| 0 <= i < drop.len() implies !orders_contain_id(
            (#[trigger] drop[i]).orders,
            id,
        ) by {
            assert(drop[i] == levels[i + 1]);
        }
        assert(!levels_contain_id(drop, id));
        if t >= lr0 {
            lemma_take_levels_preserves_absent(drop, t - lr0, id);
        } else {
            lemma_take_orders_preserves_absent(levels[0].orders, t, id);
            let r = take_levels(levels, t);
            assert(r == seq![LevelV { price: levels[0].price, orders: take_orders(levels[0].orders, t) }] + drop);
            assert forall|i: int| 0 <= i < r.len() implies !orders_contain_id(
                (#[trigger] r[i]).orders,
                id,
            ) by {
                if i > 0 {
                    assert(r[i] == drop[i - 1]);
                }
            }
        }
    }
}

/// Market orders never rest: a market order can remove resting orders
/// and record trades, but an identifier absent from both books before it
/// — the fresh identifier of the market order itself included — is
/// still absent after it.
pub proof fn lemma_market_orders_never_rest(
    pre: OrderBook,
    post: OrderBook,
    o: CreateOrder,
    filled: int,
    id: u64,
)
    requires
        o.order_type == OrderType::Market,
        create_effect(pre, post, o, filled),
        !levels_contain_id(crate::model::levels_v(pre.bids), id),
        !levels_contain_id(crate::model::levels_v(pre.asks), id),
    ensures
        !levels_contain_id(crate::model::levels_v(post.bids), id),
        !levels_contain_id(crate::model::levels_v(post.asks), id),
{
    match o.side {
        Side::Buy => {
            assert(opp_levels(post, o.side) == take_levels(crate::model::levels_v(pre.asks), filled));
            lemma_take_levels_preserves_absent(crate::model::levels_v(pre.asks), filled, id);
            assert(own_levels(post, o.side) == crate::model::levels_v(pre.bids));
        }
        Side::Sell => {
            assert(opp_levels(post, o.side) == take_levels(crate::model::levels_v(pre.bids), filled));
            lemma_take_levels_preserves_absent(crate::model::levels_v(pre.bids), filled, id);
            assert(own_levels(post, o.side) == crate::model::levels_v(pre.asks));
        }
    }
}

/// Cancelling an identifier that rests nowhere on a side changes that
/// side not at all.
pub proof fn lemma_remove_absent_orders(orders: Seq<OpenOrder>, id: u64)
    requires
        !orders_contain_id(orders, id),
    ensures
        remove_id_orders(orders, id) == orders,
    decreases orders.len(),
{
    if orders.len() > 0 {
        assert(orders[0].order_id != id);
        assert(forall|k: int|
            0 <= k < orders.drop_first().len()
                ==> (#[trigger] orders.drop_first()[k]).order_id != id);
        lemma_remove_absent_orders(orders.drop_first(), id);
        assert(seq![orders[0]] + orders.drop_first() =~= orders);
    }
}

/// Cancelling an identifier that rests nowhere in the book is a no-op.
pub proof fn lemma_cancel_absent_is_noop(levels: Seq<LevelV>, id: u64)
    requires
        !levels_contain_id(levels, id),
        forall|i: int| 0 <= i < levels.len() ==> (#[trigger] levels[i]).orders.len() > 0,
    ensures
        remove_id_levels(levels, id) == levels,
    decreases levels.len(),
{
    if levels.len() > 0 {
        let drop = levels.drop_first();
        assert(!orders_contain_id(levels[0].orders, id));
        lemma_remove_absent_orders(levels[0].orders, id);
        assert forall|i: int| 0 <= i < drop.len() implies !orders_contain_id(
            (#[trigger] drop[i]).orders,
            id,
        ) && drop[i].orders.len() > 0 by {
            assert(drop[i] == levels[i + 1]);
        }
        assert(!levels_contain_id(drop, id));
        lemma_cancel_absent_is_noop(drop, id);
        assert(seq![LevelV { price: levels[0].price, orders: levels[0].orders }] + drop =~= levels);
        assert(remove_id_levels(levels, id)
            == seq![LevelV { price: levels[0].price, orders: levels[0].orders }] + drop);
    }
}

/// Every resting order's identifier is below `n`. The engine assigns
/// identifiers from a counter, so both books stay below the counter.
pub open spec fn ids_below(levels: Seq<LevelV>, n: u64) -> bool {
    forall|i: int, k: int|
        0 <= i < levels.len() && 0 <= k < levels[i].orders.len()
            ==> (#[trigger] levels[i].orders[k]).order_id < n
}

/// An identifier at or above the bound rests nowhere on the side.
pub proof fn lemma_ids_below_absent(levels: Seq<LevelV>, n: u64, id: u64)
    requires
        ids_below(levels, n),
        id >= n,
    ensures
        !levels_contain_id(levels, id),
{
    assert forall|i: int| 0 <= i < levels.len() implies !orders_contain_id(
        (#[trigger] levels[i]).orders,
        id,
    ) by {
        if orders_contain_id(levels[i].orders, id) {
            let k = choose|k: int| 0 <= k < levels[i].orders.len() && levels[i].orders[k].order_id == id;
            assert(levels[i].orders[k].order_id < n);
        }
    }
}

/// Sweeping keeps every identifier bound: no new order appears.
pub proof fn lemma_take_orders_ids_below(orders: Seq<OpenOrder>, t: int, n: u64)
    requires
        forall|k: int| 0 <= k < orders.len() ==> (#[trigger] orders[k]).order_id < n,
    ensures
        forall|k: int|
            0 <= k < take_orders(orders, t).len()
                ==> (#[trigger] take_orders(orders, t)[k]).order_id < n,
    decreases orders.len(),
{
    if orders.len() == 0 || t <= 0 {
    } else if t >= remaining(orders[0]) {
        assert(forall|k: int|
            0 <= k < orders.drop_first().len()
                ==> (#[trigger] orders.drop_first()[k]).order_id < n);
        lemma_take_orders_ids_below(orders.drop_first(), t - remaining(orders[0]), n);
    } else {
        let r = take_orders(orders, t);
        assert forall|k: int| 0 <= k < r.len() implies (#[trigger] r[k]).order_id < n by {
            if k == 0 {
                assert(r[0].order_id == orders[0].order_id);
            } else {
                assert(r[k] == orders.drop_first()[k - 1]);
                assert(r[k] == orders[k]);
            }
        }
    }
}

/// Sweeping one side keeps every identifier bound.
pub proof fn lemma_take_levels_ids_below(levels: Seq<LevelV>, t: int, n: u64)
    requires
        ids_below(levels, n),
    ensures
        ids_below(take_levels(levels, t), n),
    decreases levels.len(),
{
    if levels.len() == 0 || t <= 0 {
    } else {
        let lr0 = orders_remaining(levels[0].orders);
        let drop = levels.drop_first();
        assert forall|i: int, k: int|
            0 <= i < drop.len() && 0 <= k < drop[i].orders.len() implies (#[trigger] drop[i].orders[k]).order_id < n by {
            assert(drop[i] == levels[i + 1]);
        }
        if t >= lr0 {
            lemma_take_levels_ids_below(drop, t - lr0, n);
        } else {
            assert(forall|k: int|
                0 <= k < levels[0].orders.len() ==> (#[trigger] levels[0].orders[k]).order_id < n);
            lemma_take_orders_ids_below(levels[0].orders, t, n);
            let r = take_levels(levels, t);
            let l0 = LevelV { price: levels[0].price, orders: take_orders(levels[0].orders, t) };
            assert(r == seq![l0] + drop);
            assert forall|i: int, k: int|
                0 <= i < r.len() && 0 <= k < r[i].orders.len() implies (#[trigger] r[i].orders[k]).order_id < n by {
                if i == 0 {
                    assert(r[0] == l0);
                } else {
                    assert(r[i] == drop[i - 1]);
                }
            }
        }
    }
}

/// Resting a new order keeps identifiers bound by anything above its
/// own identifier.
pub proof fn lemma_insert_level_ids_below(levels: Seq<LevelV>, o: OpenOrder, side: Side, n: u64)
    requires
        ids_below(levels, n),
        o.order_id < n,
    ensures
        ids_below(crate::model::insert_level(levels, o, side), n),
    decreases levels.len(),
{
    let r = crate::model::insert_level(levels, o, side);
    if levels.len() == 0 {
        assert forall|i: int, k: int|
            0 <= i < r.len() && 0 <= k < r[i].orders.len() implies (#[trigger] r[i].orders[k]).order_id < n by {
            assert(r[0].orders == seq![o]);
        }
    } else if better_price(levels[0].price, o.price, side) {
        let drop = levels.drop_first();
        assert forall|i: int, k: int|
            0 <= i < drop.len() && 0 <= k < drop[i].orders.len() implies (#[trigger] drop[i].orders[k]).order_id < n by {
            assert(drop[i] == levels[i + 1]);
        }
        lemma_insert_level_ids_below(drop, o, side, n);
        let ri = crate::model::insert_level(drop, o, side);
        assert(r == seq![levels[0]] + ri);
        assert forall|i: int, k: int|
            0 <= i < r.len() && 0 <= k < r[i].orders.len() implies (#[trigger] r[i].orders[k]).order_id < n by {
            if i == 0 {
                assert(r[0] == levels[0]);
            } else {
                assert(r[i] == ri[i - 1]);
            }
        }
    } else if levels[0].price == o.price {
        let up = LevelV { price: levels[0].price, orders: levels[0].orders.push(o) };
        assert(r == seq![up] + levels.drop_first());
        assert forall|i: int, k: int|
            0 <= i < r.len() && 0 <= k < r[i].orders.len() implies (#[trigger] r[i].orders[k]).order_id < n by {
            if i == 0 {
                assert(r[0] == up);
                if k < levels[0].orders.len() {
                    assert(up.orders[k] == levels[0].orders[k]);
                } else {
                    assert(up.orders[k] == o);
                }
            } else {
                assert(r[i] == levels[i]);
            }
        }
    } else {
        let nl = LevelV { price: o.price, orders: seq![o] };
        assert(r == seq![nl] + levels);
        assert forall|i: int, k: int|
            0 <= i < r.len() && 0 <= k < r[i].orders.len() implies (#[trigger] r[i].orders[k]).order_id < n by {
            if i == 0 {
                assert(r[0] == nl);
            } else {
                assert(r[i] == levels[i - 1]);
            }
        }
    }
}

/// One accepted create request keeps both books' identifiers bounded by
/// anything above the identifier it was assigned.
pub proof fn lemma_create_preserves_ids_below(
    pre: OrderBook,
    post: OrderBook,
    o: CreateOrder,
    filled: int,
    n: u64,
)
    requires
        create_effect(pre, post, o, filled),
        ids_below(crate::model::levels_v(pre.bids), n),
        ids_below(crate::model::levels_v(pre.asks), n),
        pre.order_id_index < n,
    ensures
        ids_below(crate::model::levels_v(post.bids), n),
        ids_below(crate::model::levels_v(post.asks), n),
{
    let opp_pre = opp_levels(pre, o.side);
    lemma_take_levels_ids_below(opp_pre, filled, n);
    match o.order_type {
        OrderType::Market => {
        }
        OrderType::Limit => {
            if filled < o.quantity {
                let rest = crate::model::rest_order(o, pre.order_id_index, filled);
                assert(rest.order_id < n);
                match o.side {
                    Side::Buy => lemma_insert_level_ids_below(
                        crate::model::levels_v(pre.bids),
                        rest,
                        Side::Buy,
                        n,
                    ),
                    Side::Sell => lemma_insert_level_ids_below(
                        crate::model::levels_v(pre.asks),
                        rest,
                        Side::Sell,
                        n,
                    ),
                }
            }
        }
    }
}

/// Market orders never rest, identifier included: when both books'
/// identifiers sit below the counter, the identifier a market order was
/// assigned rests in neither book afterwards.
pub proof fn lemma_market_remainder_rests_nowhere(
    pre: OrderBook,
    post: OrderBook,
    o: CreateOrder,
    filled: int,
)
    requires
        o.order_type == OrderType::Market,
        create_effect(pre, post, o, filled),
        ids_below(crate::model::levels_v(pre.bids), pre.order_id_index),
        ids_below(crate::model::levels_v(pre.asks), pre.order_id_index),
    ensures
        !levels_contain_id(crate::model::levels_v(post.bids), pre.order_id_index),
        !levels_contain_id(crate::model::levels_v(post.asks), pre.order_id_index),
{
    lemma_ids_below_absent(crate::model::levels_v(pre.bids), pre.order_id_index, pre.order_id_index);
    lemma_ids_below_absent(crate::model::levels_v(pre.asks), pre.order_id_index, pre.order_id_index);
    lemma_market_orders_never_rest(pre, post, o, filled, pre.order_id_index);
}

/// Price priority, third half: fills reach a worse level only once every
/// better level is fully consumed — a fill at the `j`-th level means the
/// sweep took at least the whole remainder of the levels before it.
pub proof fn lemma_earlier_levels_exhausted_first(levels: Seq<LevelV>, side: Side, t: int, j: int)
    requires
        side_wf(levels, side),
        0 <= t,
        0 < j < levels.len(),
        exists|k: int|
            0 <= k < fills_levels(levels, t).len()
                && (#[trigger] fills_levels(levels, t)[k]).price == levels[j].price,
    ensures
        t >= levels_remaining(levels.take(j)),
    decreases levels.len(),
{
    let lr0 = orders_remaining(levels[0].orders);
    let drop = levels.drop_first();
    let p0 = levels[0].price;
    let fs = fills_levels(levels, t);
    assert(better_price(p0, levels[j].price, side));
    assert(p0 != levels[j].price);
    if t <= 0 {
        assert(fs.len() == 0);
        assert(false);
    } else {
        lemma_fills_orders_price(levels[0].orders, if t >= lr0 { lr0 } else { t }, p0);
        assert(levels.take(j)[0] == levels[0]);
        assert(levels.take(j).drop_first() =~= drop.take(j - 1));
        assert(levels_remaining(levels.take(j)) == lr0 + levels_remaining(drop.take(j - 1)));
        if t >= lr0 {
            let a = fills_orders(levels[0].orders, lr0, p0);
            let b = fills_levels(drop, t - lr0);
            assert(fs == a + b);
            let k = choose|k: int| 0 <= k < fs.len() && fs[k].price == levels[j].price;
            assert(k >= a.len()) by {
                if k < a.len() {
                    assert(fs[k] == a[k]);
                }
            }
            assert(b[k - a.len()] == fs[k]);
            assert(drop[j - 1] == levels[j]);
            assert(forall|i: int| 0 <= i < drop.len() ==> level_wf(#[trigger] drop[i], side));
            assert(side_wf(drop, side));
            if j == 1 {
                assert(drop.take(0) =~= Seq::<LevelV>::empty());
                assert(levels_remaining(drop.take(0)) == 0);
            } else {
                lemma_earlier_levels_exhausted_first(drop, side, t - lr0, j - 1);
            }
        } else {
            let k = choose|k: int| 0 <= k < fs.len() && fs[k].price == levels[j].price;
            assert(fs == fills_orders(levels[0].orders, t, p0));
            assert(fs[k].price == p0);
            assert(false);
        }
    }
}

/// How many orders of the queue carry the identifier.
pub open spec fn count_id_orders(orders: Seq<OpenOrder>, id: u64) -> int
    decreases orders.len(),
{
    if orders.len() == 0 {
        0
    } else {
        (if orders[0].order_id == id { 1int } else { 0int }) + count_id_orders(orders.drop_first(), id)
    }
}

/// How many orders of the side carry the identifier.
pub open spec fn count_id_levels(levels: Seq<LevelV>, id: u64) -> int
    decreases levels.len(),
{
    if levels.len() == 0 {
        0
    } else {
        count_id_orders(levels[0].orders, id) + count_id_levels(levels.drop_first(), id)
    }
}

/// No identifier names more than one resting order across both books.
pub open spec fn unique_ids(b: OrderBook) -> bool {
    forall|id: u64|
        count_id_levels(crate::model::levels_v(b.bids), id)
            + #[trigger] count_id_levels(crate::model::levels_v(b.asks), id) <= 1
}

pub proof fn lemma_count_orders_nonneg(orders: Seq<OpenOrder>, id: u64)
    ensures
        count_id_orders(orders, id) >= 0,
    decreases orders.len(),
{
    if orders.len() > 0 {
        lemma_count_orders_nonneg(orders.drop_first(), id);
    }
}

pub proof fn lemma_count_levels_nonneg(levels: Seq<LevelV>, id: u64)
    ensures
        count_id_levels(levels, id) >= 0,
    decreases levels.len(),
{
    if levels.len() > 0 {
        lemma_count_orders_nonneg(levels[0].orders, id);
        lemma_count_levels_nonneg(levels.drop_first(), id);
    }
}

/// An absent identifier has count zero.
pub proof fn lemma_count_orders_absent(orders: Seq<OpenOrder>, id: u64)
    requires
        !orders_contain_id(orders, id),
    ensures
        count_id_orders(orders, id) == 0,
    decreases orders.len(),
{
    if orders.len() > 0 {
        assert(orders[0].order_id != id);
        assert(forall|k: int|
            0 <= k < orders.drop_first().len()
                ==> (#[trigger] orders.drop_first()[k]).order_id != id);
        lemma_count_orders_absent(orders.drop_first(), id);
    }
}

/// An identifier absent from a whole side has count zero there.
pub proof fn lemma_count_levels_absent(levels: Seq<LevelV>, id: u64)
    requires
        !levels_contain_id(levels, id),
    ensures
        count_id_levels(levels, id) == 0,
    decreases levels.len(),
{
    if levels.len() > 0 {
        let drop = levels.drop_first();
        assert(!orders_contain_id(levels[0].orders, id));
        lemma_count_orders_absent(levels[0].orders, id);
        assert forall|i: int| 0 <= i < drop.len() implies !orders_contain_id(
            (#[trigger] drop[i]).orders,
            id,
        ) by {
            assert(drop[i] == levels[i + 1]);
        }
        lemma_count_levels_absent(drop, id);
    }
}

/// Sweeping a queue never duplicates an identifier.
pub proof fn lemma_take_orders_count(orders: Seq<OpenOrder>, t: int, id: u64)
    ensures
        count_id_orders(take_orders(orders, t), id) <= count_id_orders(orders, id),
    decreases orders.len(),
{
    if orders.len() == 0 || t <= 0 {
    } else if t >= remaining(orders[0]) {
        lemma_take_orders_count(orders.drop_first(), t - remaining(orders[0]), id);
        lemma_count_orders_nonneg(orders.drop_first(), id);
    } else {
        let r = take_orders(orders, t);
        assert(r[0].order_id == orders[0].order_id);
        assert(r.drop_first() =~= orders.drop_first());
    }
}

/// Sweeping a side never duplicates an identifier.
pub proof fn lemma_take_levels_count(levels: Seq<LevelV>, t: int, id: u64)
    ensures
        count_id_levels(take_levels(levels, t), id) <= count_id_levels(levels, id),
    decreases levels.len(),
{
    if levels.len() == 0 || t <= 0 {
    } else {
        let lr0 = orders_remaining(levels[0].orders);
        let drop = levels.drop_first();
        if t >= lr0 {
            lemma_take_levels_count(drop, t - lr0, id);
            lemma_count_orders_nonneg(levels[0].orders, id);
        } else {
            let r = take_levels(levels, t);
            let l0 = LevelV { price: levels[0].price, orders: take_orders(levels[0].orders, t) };
            assert(r == seq![l0] + drop);
            assert(r[0] == l0);
            assert(r.drop_first() =~= drop);
            lemma_take_orders_count(levels[0].orders, t, id);
            assert(count_id_levels(r, id)
                == count_id_orders(l0.orders, id) + count_id_levels(r.drop_first(), id));
        }
    }
}

pub proof fn lemma_count_orders_snoc(orders: Seq<OpenOrder>, o: OpenOrder, id: u64)
    ensures
        count_id_orders(orders.push(o), id)
            == count_id_orders(orders, id) + (if o.order_id == id { 1int } else { 0int }),
    decreases orders.len(),
{
    if orders.len() == 0 {
        assert(orders.push(o)[0] == o);
        assert(orders.push(o).drop_first() =~= Seq::<OpenOrder>::empty());
        assert(count_id_orders(Seq::<OpenOrder>::empty(), id) == 0);
        assert(count_id_orders(orders.push(o), id)
            == (if o.order_id == id { 1int } else { 0int }) + count_id_orders(orders.push(o).drop_first(), id));
    } else {
        assert(orders.push(o)[0] == orders[0]);
        assert(orders.push(o).drop_first() =~= orders.drop_first().push(o));
        lemma_count_orders_snoc(orders.drop_first(), o, id);
        assert(count_id_orders(orders.push(o), id)
            == (if orders[0].order_id == id { 1int } else { 0int }) + count_id_orders(orders.push(o).drop_first(), id));
    }
}

/// Resting one order adds exactly its own identifier, once.
pub proof fn lemma_insert_level_count(levels: Seq<LevelV>, o: OpenOrder, side: Side, id: u64)
    ensures
        count_id_levels(crate::model::insert_level(levels, o, side), id)
            == count_id_levels(levels, id) + (if o.order_id == id { 1int } else { 0int }),
    decreases levels.len(),
{
    let r = crate::model::insert_level(levels, o, side);
    if levels.len() == 0 {
        assert(r[0].orders == seq![o]);
        assert(r.drop_first() =~= Seq::<LevelV>::empty());
        assert(seq![o].drop_first() =~= Seq::<OpenOrder>::empty());
        assert(seq![o][0] == o);
        assert(count_id_orders(Seq::<OpenOrder>::empty(), id) == 0);
        assert(count_id_levels(Seq::<LevelV>::empty(), id) == 0);
        assert(count_id_orders(seq![o], id) == (if o.order_id == id { 1int } else { 0int }));
    } else if better_price(levels[0].price, o.price, side) {
        let drop = levels.drop_first();
        lemma_insert_level_count(drop, o, side, id);
        let ri = crate::model::insert_level(drop, o, side);
        assert(r == seq![levels[0]] + ri);
        assert(r[0] == levels[0]);
        assert(r.drop_first() =~= ri);
    } else if levels[0].price == o.price {
        let up = LevelV { price: levels[0].price, orders: levels[0].orders.push(o) };
        assert(r == seq![up] + levels.drop_first());
        assert(r[0] == up);
        assert(r.drop_first() =~= levels.drop_first());
        lemma_count_orders_snoc(levels[0].orders, o, id);
    } else {
        let nl = LevelV { price: o.price, orders: seq![o] };
        assert(r == seq![nl] + levels);
        assert(r[0] == nl);
        assert(r.drop_first() =~= levels);
        assert(seq![o].drop_first() =~= Seq::<OpenOrder>::empty());
        assert(seq![o][0] == o);
        assert(count_id_orders(Seq::<OpenOrder>::empty(), id) == 0);
        assert(count_id_orders(seq![o], id) == (if o.order_id == id { 1int } else { 0int }));
    }
}

/// Cancelling removes the identifier entirely and touches no other.
pub proof fn lemma_remove_orders_count(orders: Seq<OpenOrder>, rid: u64, id: u64)
    ensures
        count_id_orders(remove_id_orders(orders, rid), rid) == 0,
        rid != id ==> count_id_orders(remove_id_orders(orders, rid), id) == count_id_orders(orders, id),
    decreases orders.len(),
{
    if orders.len() > 0 {
        lemma_remove_orders_count(orders.drop_first(), rid, id);
        if orders[0].order_id != rid {
            let r = remove_id_orders(orders, rid);
            assert(r == seq![orders[0]] + remove_id_orders(orders.drop_first(), rid));
            assert(r[0] == orders[0]);
            assert(r.drop_first() =~= remove_id_orders(orders.drop_first(), rid));
        }
    }
}

/// Cancelling on a whole side removes the identifier entirely and
/// touches no other.
pub proof fn lemma_remove_levels_count(levels: Seq<LevelV>, rid: u64, id: u64)
    ensures
        count_id_levels(remove_id_levels(levels, rid), rid) == 0,
        rid != id ==> count_id_levels(remove_id_levels(levels, rid), id) == count_id_levels(levels, id),
    decreases levels.len(),
{
    if levels.len() > 0 {
        let drop = levels.drop_first();
        let kept = remove_id_orders(levels[0].orders, rid);
        lemma_remove_orders_count(levels[0].orders, rid, id);
        lemma_remove_levels_count(drop, rid, id);
        if kept.len() == 0 {
            assert(count_id_orders(kept, rid) == 0);
            assert(rid != id ==> count_id_orders(kept, id) == 0);
        } else {
            let r = remove_id_levels(levels, rid);
            assert(r == seq![LevelV { price: levels[0].price, orders: kept }] + remove_id_levels(drop, rid));
            assert(r[0].orders == kept);
            assert(r.drop_first() =~= remove_id_levels(drop, rid));
        }
    }
}

/// One accepted create request keeps identifiers unique across both
/// books, provided the books' identifiers sit below the counter the
/// request drew from.
pub proof fn lemma_create_preserves_unique(
    pre: OrderBook,
    post: OrderBook,
    o: CreateOrder,
    filled: int,
)
    requires
        create_effect(pre, post, o, filled),
        unique_ids(pre),
        ids_below(crate::model::levels_v(pre.bids), pre.order_id_index),
        ids_below(crate::model::levels_v(pre.asks), pre.order_id_index),
    ensures
        unique_ids(post),
{
    let pre_opp = opp_levels(pre, o.side);
    let pre_own = own_levels(pre, o.side);
    let post_opp = opp_levels(post, o.side);
    let post_own = own_levels(post, o.side);
    assert forall|id: u64|
        count_id_levels(crate::model::levels_v(post.bids), id)
            + #[trigger] count_id_levels(crate::model::levels_v(post.asks), id) <= 1 by {
        lemma_take_levels_count(pre_opp, filled, id);
        lemma_count_levels_nonneg(pre_opp, id);
        lemma_count_levels_nonneg(pre_own, id);
        lemma_count_levels_nonneg(post_opp, id);
        match o.order_type {
            OrderType::Market => {
                assert(post_own == pre_own);
            }
            OrderType::Limit => {
                if filled < o.quantity {
                    let rest = crate::model::rest_order(o, pre.order_id_index, filled);
                    lemma_insert_level_count(pre_own, rest, o.side, id);
                    if rest.order_id == id {
                        lemma_ids_below_absent(crate::model::levels_v(pre.bids), pre.order_id_index, id);
                        lemma_ids_below_absent(crate::model::levels_v(pre.asks), pre.order_id_index, id);
                        lemma_count_levels_absent(crate::model::levels_v(pre.bids), id);
                        lemma_count_levels_absent(crate::model::levels_v(pre.asks), id);
                    }
                } else {
                    assert(post_own == pre_own);
                }
            }
        }
        match o.side {
            Side::Buy => {
                assert(crate::model::levels_v(post.asks) == post_opp);
                assert(crate::model::levels_v(post.bids) == post_own);
            }
            Side::Sell => {
                assert(crate::model::levels_v(post.bids) == post_opp);
                assert(crate::model::levels_v(post.asks) == post_own);
            }
        }
    }
}

/// One cancellation keeps identifiers unique across both books.
pub proof fn lemma_delete_preserves_unique(pre: OrderBook, post: OrderBook, rid: u64)
    requires
        unique_ids(pre),
        crate::model::levels_v(post.bids) == remove_id_levels(crate::model::levels_v(pre.bids), rid),
        crate::model::levels_v(post.asks) == remove_id_levels(crate::model::levels_v(pre.asks), rid),
    ensures
        unique_ids(post),
        count_id_levels(crate::model::levels_v(post.bids), rid) == 0,
        count_id_levels(crate::model::levels_v(post.asks), rid) == 0,
{
    assert forall|id: u64|
        count_id_levels(crate::model::levels_v(post.bids), id)
            + #[trigger] count_id_levels(crate::model::levels_v(post.asks), id) <= 1 by {
        lemma_remove_levels_count(crate::model::levels_v(pre.bids), rid, id);
        lemma_remove_levels_count(crate::model::levels_v(pre.asks), rid, id);
        if id == rid {
        }
    }
    lemma_remove_levels_count(crate::model::levels_v(pre.bids), rid, rid);
    lemma_remove_levels_count(crate::model::levels_v(pre.asks), rid, rid);
}

/// Pointwise matching trades carry exactly the fills' quantities.
pub proof fn lemma_sum_trades_matches(ts: Seq<Trade>, fs: Seq<FillRec>, taker: String, side: Side)
    requires
        ts.len() == fs.len(),
        forall|i: int| 0 <= i < fs.len() ==> trade_matches(#[trigger] ts[i], fs[i], taker, side),
    ensures
        sum_trades(ts) == sum_fills(fs),
    decreases ts.len(),
{
    if ts.len() > 0 {
        assert(trade_matches(ts[0], fs[0], taker, side));
        assert forall|i: int| 0 <= i < fs.drop_first().len() implies trade_matches(
            #[trigger] ts.drop_first()[i],
            fs.drop_first()[i],
            taker,
            side,
        ) by {
            assert(ts.drop_first()[i] == ts[i + 1]);
            assert(fs.drop_first()[i] == fs[i + 1]);
        }
        lemma_sum_trades_matches(ts.drop_first(), fs.drop_first(), taker, side);
    }
}

/// Splitting a trade sequence splits its total.
pub proof fn lemma_sum_trades_concat(a: Seq<Trade>, b: Seq<Trade>)
    ensures
        sum_trades(a + b) == sum_trades(a) + sum_trades(b),
    decreases a.len(),
{
    if a.len() == 0 {
        assert(a + b =~= b);
    } else {
        assert((a + b)[0] == a[0]);
        assert((a + b).drop_first() =~= a.drop_first() + b);
        lemma_sum_trades_concat(a.drop_first(), b);
        assert(sum_trades(a + b) == (a + b)[0].quantity + sum_trades((a + b).drop_first()));
    }
}

/// Ledger conservation: across one matching call, the ledger's total
/// traded quantity grows by exactly the sum of the fills recorded.
pub proof fn lemma_ledger_conservation(
    old_trades: Seq<Trade>,
    new_trades: Seq<Trade>,
    fs: Seq<FillRec>,
    taker: String,
    side: Side,
)
    requires
        trades_extended(old_trades, new_trades, fs, taker, side),
    ensures
        sum_trades(new_trades) == sum_trades(old_trades) + sum_fills(fs),
{
    let suffix = new_trades.skip(old_trades.len() as int);
    assert(new_trades =~= old_trades + suffix);
    lemma_sum_trades_concat(old_trades, suffix);
    assert(suffix.len() == fs.len());
    assert forall|i: int| 0 <= i < fs.len() implies trade_matches(
        #[trigger] suffix[i],
        fs[i],
        taker,
        side,
    ) by {
        assert(suffix[i] == new_trades[old_trades.len() + i]);
    }
    lemma_sum_trades_matches(suffix, fs, taker, side);
}

} // verus!
