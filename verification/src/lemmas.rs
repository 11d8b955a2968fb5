use vstd::prelude::*;
use crate::types::{Side, OpenOrder, LevelV};
use crate::model::{
    remaining, order_wf, level_wf, side_wf, eligible, better_price,
    orders_remaining, levels_remaining, eligible_total,
    take_orders, fills_orders, insert_level, remove_id_orders, sum_fills,
};

verus! {

/// Every order of the queue has its fill within its size.
pub open spec fn orders_bounded(orders: Seq<OpenOrder>) -> bool {
    forall|k: int|
        0 <= k < orders.len()
            ==> (#[trigger] orders[k]).filled_quantity <= orders[k].quantity
}

pub proof fn lemma_orders_remaining_nonneg(orders: Seq<OpenOrder>)
    requires
        orders_bounded(orders),
    ensures
        orders_remaining(orders) >= 0,
    decreases orders.len(),
{
    if orders.len() > 0 {
        assert(orders_bounded(orders.drop_first()));
        lemma_orders_remaining_nonneg(orders.drop_first());
    }
}

/// A sound level holds at least one unfilled unit per order.
pub proof fn lemma_orders_remaining_lower(orders: Seq<OpenOrder>, side: Side, price: u64)
    requires
        forall|k: int| 0 <= k < orders.len() ==> order_wf(#[trigger] orders[k], side, price),
    ensures
        orders_remaining(orders) >= orders.len(),
    decreases orders.len(),
{
    if orders.len() > 0 {
        assert(forall|k: int|
            0 <= k < orders.drop_first().len()
                ==> order_wf(#[trigger] orders.drop_first()[k], side, price));
        lemma_orders_remaining_lower(orders.drop_first(), side, price);
    }
}

pub proof fn lemma_levels_remaining_nonneg(levels: Seq<LevelV>, side: Side)
    requires
        forall|i: int| 0 <= i < levels.len() ==> level_wf(#[trigger] levels[i], side),
    ensures
        levels_remaining(levels) >= 0,
    decreases levels.len(),
{
    if levels.len() > 0 {
        lemma_orders_remaining_lower(levels[0].orders, side, levels[0].price);
        assert(forall|i: int|
            0 <= i < levels.drop_first().len()
                ==> level_wf(#[trigger] levels.drop_first()[i], side));
        lemma_levels_remaining_nonneg(levels.drop_first(), side);
    }
}

pub proof fn lemma_eligible_total_nonneg(levels: Seq<LevelV>, side: Side, bounded: bool, bound: u64)
    requires
        forall|i: int| 0 <= i < levels.len() ==> level_wf(#[trigger] levels[i], side),
    ensures
        eligible_total(levels, side, bounded, bound) >= 0,
    decreases levels.len(),
{
    if levels.len() > 0 && eligible(levels[0].price, side, bounded, bound) {
        lemma_orders_remaining_lower(levels[0].orders, side, levels[0].price);
        assert(forall|i: int|
            0 <= i < levels.drop_first().len()
                ==> level_wf(#[trigger] levels.drop_first()[i], side));
        lemma_eligible_total_nonneg(levels.drop_first(), side, bounded, bound);
    }
}

/// An unbounded sweep may reach the whole side.
pub proof fn lemma_unbounded_total(levels: Seq<LevelV>, side: Side, bound: u64)
    ensures
        eligible_total(levels, side, false, bound) == levels_remaining(levels),
    decreases levels.len(),
{
    if levels.len() > 0 {
        lemma_unbounded_total(levels.drop_first(), side, bound);
    }
}

/// Taking from a sound queue leaves a sound (possibly empty) queue.
pub proof fn lemma_take_orders_wf(orders: Seq<OpenOrder>, t: int, side: Side, price: u64)
    requires
        forall|k: int| 0 <= k < orders.len() ==> order_wf(#[trigger] orders[k], side, price),
        0 <= t,
    ensures
        forall|k: int|
            0 <= k < take_orders(orders, t).len()
                ==> order_wf(#[trigger] take_orders(orders, t)[k], side, price),
    decreases orders.len(),
{
    if orders.len() == 0 || t <= 0 {
    } else if t >= remaining(orders[0]) {
        assert(forall|k: int|
            0 <= k < orders.drop_first().len()
                ==> order_wf(#[trigger] orders.drop_first()[k], side, price));
        lemma_take_orders_wf(orders.drop_first(), t - remaining(orders[0]), side, price);
        assert(take_orders(orders, t) == take_orders(orders.drop_first(), t - remaining(orders[0])));
    } else {
        let r = take_orders(orders, t);
        assert(order_wf(orders[0], side, price));
        assert(order_wf(r[0], side, price));
        assert forall|k: int| 1 <= k < r.len() implies order_wf(#[trigger] r[k], side, price) by {
            assert(r[k] == orders.drop_first()[k - 1]);
            assert(orders.drop_first()[k - 1] == orders[k]);
        }
    }
}

/// Quantity conservation within one queue: taking `t` units removes
/// exactly `t` from the queue's total, and the fills sum to `t`.
pub proof fn lemma_take_orders_conserves(orders: Seq<OpenOrder>, t: int, price: u64)
    requires
        orders_bounded(orders),
        0 <= t <= orders_remaining(orders),
    ensures
        orders_remaining(take_orders(orders, t)) == orders_remaining(orders) - t,
        sum_fills(fills_orders(orders, t, price)) == t,
        fills_orders(orders, t, price).len() <= orders.len(),
    decreases orders.len(),
{
    if orders.len() == 0 || t <= 0 {
    } else if t >= remaining(orders[0]) {
        assert(orders_bounded(orders.drop_first()));
        lemma_take_orders_conserves(orders.drop_first(), t - remaining(orders[0]), price);
        let f0 = fills_orders(orders, t, price)[0];
        assert(fills_orders(orders, t, price).drop_first()
            =~= fills_orders(orders.drop_first(), t - remaining(orders[0]), price));
    } else {
        let r = take_orders(orders, t);
        assert(r.drop_first() =~= orders.drop_first());
        assert(remaining(r[0]) == remaining(orders[0]) - t);
        lemma_orders_remaining_nonneg(orders.drop_first());
        let fs = fills_orders(orders, t, price);
        assert(fs.len() == 1);
        assert(fs[0].qty == t as u64);
        assert(fs.drop_first() =~= Seq::<crate::types::FillRec>::empty());
        assert(sum_fills(fs.drop_first()) == 0);
        assert(sum_fills(fs) == fs[0].qty + sum_fills(fs.drop_first()));
    }
}

/// Removing an identifier from a sound queue keeps every kept order
/// sound.
pub proof fn lemma_remove_orders_wf(orders: Seq<OpenOrder>, id: u64, side: Side, price: u64)
    requires
        forall|k: int| 0 <= k < orders.len() ==> order_wf(#[trigger] orders[k], side, price),
    ensures
        forall|k: int|
            0 <= k < remove_id_orders(orders, id).len()
                ==> order_wf(#[trigger] remove_id_orders(orders, id)[k], side, price),
    decreases orders.len(),
{
    if orders.len() > 0 {
        assert(forall|k: int|
            0 <= k < orders.drop_first().len()
                ==> order_wf(#[trigger] orders.drop_first()[k], side, price));
        lemma_remove_orders_wf(orders.drop_first(), id, side, price);
        if orders[0].order_id == id {
            assert(remove_id_orders(orders, id) == remove_id_orders(orders.drop_first(), id));
        } else {
            let r = remove_id_orders(orders, id);
            assert forall|k: int| 0 <= k < r.len() implies order_wf(#[trigger] r[k], side, price) by {
                if k == 0 {
                    assert(r[0] == orders[0]);
                } else {
                    assert(r[k] == remove_id_orders(orders.drop_first(), id)[k - 1]);
                }
            }
        }
    }
}

/// Appending one order adds exactly its unfilled quantity to the total.
pub proof fn lemma_orders_remaining_snoc(orders: Seq<OpenOrder>, o: OpenOrder)
    ensures
        orders_remaining(orders.push(o)) == orders_remaining(orders) + remaining(o),
    decreases orders.len(),
{
    if orders.len() == 0 {
        assert(orders.push(o)[0] == o);
        assert(orders.push(o).drop_first() =~= Seq::<OpenOrder>::empty());
        assert(orders_remaining(Seq::<OpenOrder>::empty()) == 0);
        assert(orders_remaining(orders.push(o))
            == remaining(o) + orders_remaining(orders.push(o).drop_first()));
    } else {
        assert(orders.push(o)[0] == orders[0]);
        assert(orders.push(o).drop_first() =~= orders.drop_first().push(o));
        lemma_orders_remaining_snoc(orders.drop_first(), o);
        assert(orders.push(o).len() > 0);
        assert(orders_remaining(orders.push(o))
            == remaining(orders[0]) + orders_remaining(orders.push(o).drop_first()));
    }
}

/// Where a new resting order lands: appended to the level of its own
/// price if one exists, else opening a new level right after the levels
/// with strictly better prices.
pub proof fn lemma_insert_level_at(levels: Seq<LevelV>, o: OpenOrder, side: Side, i: int)
    requires
        0 <= i <= levels.len(),
        forall|j: int| 0 <= j < i ==> better_price(#[trigger] levels[j].price, o.price, side),
        i < levels.len() ==> !better_price(levels[i].price, o.price, side),
    ensures
        i < levels.len() && levels[i].price == o.price
            ==> insert_level(levels, o, side) == levels.update(
                i,
                LevelV { price: levels[i].price, orders: levels[i].orders.push(o) },
            ),
        !(i < levels.len() && levels[i].price == o.price)
            ==> insert_level(levels, o, side) == levels.insert(
                i,
                LevelV { price: o.price, orders: seq![o] },
            ),
    decreases levels.len(),
{
    let nl = LevelV { price: o.price, orders: seq![o] };
    if levels.len() == 0 {
        assert(levels.insert(0, nl) =~= seq![nl]);
    } else if i == 0 {
        if levels[0].price == o.price {
            let up = LevelV { price: levels[0].price, orders: levels[0].orders.push(o) };
            assert(seq![up] + levels.drop_first() =~= levels.update(0, up));
        } else {
            assert(seq![nl] + levels =~= levels.insert(0, nl));
        }
    } else {
        assert(better_price(levels[0].price, o.price, side));
        let rest = levels.drop_first();
        assert(forall|j: int| 0 <= j < i - 1 ==> better_price(#[trigger] rest[j].price, o.price, side));
        lemma_insert_level_at(rest, o, side, i - 1);
        if i < levels.len() && levels[i].price == o.price {
            let up = LevelV { price: levels[i].price, orders: levels[i].orders.push(o) };
            assert(rest[i - 1] == levels[i]);
            assert(seq![levels[0]] + rest.update(i - 1, up) =~= levels.update(i, up));
        } else {
            assert(seq![levels[0]] + rest.insert(i - 1, nl) =~= levels.insert(i, nl));
        }
    }
}

/// A price better than the new order's and than every level's stays
/// better than every level of the result.
pub proof fn lemma_insert_level_bound(levels: Seq<LevelV>, o: OpenOrder, side: Side, p: u64)
    requires
        better_price(p, o.price, side),
        forall|j: int| 0 <= j < levels.len() ==> better_price(p, (#[trigger] levels[j]).price, side),
    ensures
        forall|k: int|
            0 <= k < insert_level(levels, o, side).len()
                ==> better_price(p, (#[trigger] insert_level(levels, o, side)[k]).price, side),
    decreases levels.len(),
{
    let r = insert_level(levels, o, side);
    if levels.len() == 0 {
        assert(r[0].price == o.price);
    } else if better_price(levels[0].price, o.price, side) {
        let rest = levels.drop_first();
        assert(forall|j: int| 0 <= j < rest.len() ==> better_price(p, (#[trigger] rest[j]).price, side));
        lemma_insert_level_bound(rest, o, side, p);
        assert forall|k: int| 0 <= k < r.len() implies better_price(p, (#[trigger] r[k]).price, side) by {
            if k == 0 {
                assert(r[0] == levels[0]);
            } else {
                assert(r[k] == insert_level(rest, o, side)[k - 1]);
            }
        }
    } else if levels[0].price == o.price {
        assert forall|k: int| 0 <= k < r.len() implies better_price(p, (#[trigger] r[k]).price, side) by {
            if k == 0 {
                assert(r[0].price == levels[0].price);
            } else {
                assert(r[k] == levels.drop_first()[k - 1]);
                assert(r[k] == levels[k]);
            }
        }
    } else {
        assert forall|k: int| 0 <= k < r.len() implies better_price(p, (#[trigger] r[k]).price, side) by {
            if k == 0 {
                assert(r[0].price == o.price);
            } else {
                assert(r[k] == levels[k - 1]);
            }
        }
    }
}

/// Inserting a sound resting order keeps the side sound.
pub proof fn lemma_insert_level_wf(levels: Seq<LevelV>, o: OpenOrder, side: Side)
    requires
        side_wf(levels, side),
        o.side == side,
        o.filled_quantity < o.quantity,
    ensures
        side_wf(insert_level(levels, o, side), side),
    decreases levels.len(),
{
    let r = insert_level(levels, o, side);
    if levels.len() == 0 {
        assert(r =~= seq![LevelV { price: o.price, orders: seq![o] }]);
        assert(order_wf(r[0].orders[0], side, r[0].price));
        assert(level_wf(r[0], side));
    } else if better_price(levels[0].price, o.price, side) {
        let rest = levels.drop_first();
        assert(forall|i: int| 0 <= i < rest.len() ==> level_wf(#[trigger] rest[i], side));
        assert(forall|i: int, j: int|
            0 <= i < j < rest.len()
                ==> better_price((#[trigger] rest[i]).price, (#[trigger] rest[j]).price, side));
        lemma_insert_level_wf(rest, o, side);
        assert(forall|j: int| 0 <= j < rest.len() ==> better_price(levels[0].price, (#[trigger] rest[j]).price, side));
        lemma_insert_level_bound(rest, o, side, levels[0].price);
        let ri = insert_level(rest, o, side);
        assert(r == seq![levels[0]] + ri);
        assert forall|i: int| 0 <= i < r.len() implies level_wf(#[trigger] r[i], side) by {
            if i == 0 {
                assert(r[0] == levels[0]);
            } else {
                assert(r[i] == ri[i - 1]);
            }
        }
        assert forall|i: int, j: int| 0 <= i < j < r.len() implies better_price(
            (#[trigger] r[i]).price,
            (#[trigger] r[j]).price,
            side,
        ) by {
            if i == 0 {
                assert(r[j] == ri[j - 1]);
                assert(better_price(levels[0].price, ri[j - 1].price, side));
            } else {
                assert(r[i] == ri[i - 1]);
                assert(r[j] == ri[j - 1]);
            }
        }
    } else if levels[0].price == o.price {
        let up = LevelV { price: levels[0].price, orders: levels[0].orders.push(o) };
        assert(r == seq![up] + levels.drop_first());
        assert(level_wf(levels[0], side));
        assert forall|k: int| 0 <= k < up.orders.len() implies order_wf(#[trigger] up.orders[k], side, up.price) by {
            if k < levels[0].orders.len() {
                assert(up.orders[k] == levels[0].orders[k]);
            } else {
                assert(up.orders[k] == o);
            }
        }
        assert(level_wf(up, side));
        assert forall|i: int| 0 <= i < r.len() implies level_wf(#[trigger] r[i], side) by {
            if i > 0 {
                assert(r[i] == levels[i]);
            }
        }
        assert forall|i: int, j: int| 0 <= i < j < r.len() implies better_price(
            (#[trigger] r[i]).price,
            (#[trigger] r[j]).price,
            side,
        ) by {
            assert(r[j] == levels[j]);
            if i == 0 {
                assert(r[0].price == levels[0].price);
            } else {
                assert(r[i] == levels[i]);
            }
        }
    } else {
        let nl = LevelV { price: o.price, orders: seq![o] };
        assert(r == seq![nl] + levels);
        assert(order_wf(nl.orders[0], side, nl.price));
        assert(level_wf(nl, side));
        assert(better_price(o.price, levels[0].price, side));
        assert forall|i: int| 0 <= i < r.len() implies level_wf(#[trigger] r[i], side) by {
            if i > 0 {
                assert(r[i] == levels[i - 1]);
            }
        }
        assert forall|i: int, j: int| 0 <= i < j < r.len() implies better_price(
            (#[trigger] r[i]).price,
            (#[trigger] r[j]).price,
            side,
        ) by {
            assert(r[j] == levels[j - 1]);
            if i == 0 {
                if j > 1 {
                    assert(better_price(levels[0].price, levels[j - 1].price, side));
                }
            } else {
                assert(r[i] == levels[i - 1]);
            }
        }
    }
}

} // verus!
