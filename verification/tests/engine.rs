use matchbook::orderbook::OrderBook;
use matchbook::types::{CreateOrder, DeleteOrder, OrderType, Side};

fn limit(side: Side, price: u64, quantity: u64, user: &str) -> CreateOrder {
    CreateOrder {
        price,
        quantity,
        user_id: String::from(user),
        side,
        order_type: OrderType::Limit,
    }
}

fn market(side: Side, quantity: u64, user: &str) -> CreateOrder {
    CreateOrder {
        price: 0,
        quantity,
        user_id: String::from(user),
        side,
        order_type: OrderType::Market,
    }
}

#[test]
fn limit_buy_rests_and_shows_in_depth() {
    let mut book = OrderBook::default();
    let r = book.create_order(limit(Side::Buy, 100, 10, "A"));
    assert_eq!(r.order_id, 0);
    assert_eq!(r.filled_quantity, 0);
    assert_eq!(r.remaining_quantity, 10);
    assert_eq!(r.average_price, 100);
    let depth = book.get_depth();
    assert_eq!(depth.bids.len(), 1);
    assert_eq!(depth.bids[0].price, 100);
    assert_eq!(depth.bids[0].quantity, 10);
    assert_eq!(depth.asks.len(), 0);
    assert_eq!(book.get_trades().len(), 0);
}

#[test]
fn market_buy_fills_and_discards_remainder() {
    let mut book = OrderBook::default();
    book.create_order(limit(Side::Sell, 100, 5, "B"));
    let r = book.create_order(market(Side::Buy, 8, "A"));
    assert_eq!(r.filled_quantity, 5);
    assert_eq!(r.remaining_quantity, 3);
    assert_eq!(r.average_price, 0);
    let trades = book.get_trades();
    assert_eq!(trades.len(), 1);
    assert_eq!(trades[0].price, 100);
    assert_eq!(trades[0].quantity, 5);
    assert_eq!(trades[0].buyer_id, "A");
    assert_eq!(trades[0].seller_id, "B");
    let depth = book.get_depth();
    assert_eq!(depth.bids.len(), 0);
    assert_eq!(depth.asks.len(), 0);
}

#[test]
fn limit_buy_sweeps_two_levels_lowest_first() {
    let mut book = OrderBook::default();
    book.create_order(limit(Side::Sell, 100, 3, "B"));
    book.create_order(limit(Side::Sell, 101, 4, "C"));
    let r = book.create_order(limit(Side::Buy, 101, 5, "A"));
    assert_eq!(r.filled_quantity, 5);
    assert_eq!(r.remaining_quantity, 0);
    let trades = book.get_trades();
    assert_eq!(trades.len(), 2);
    assert_eq!(trades[0].price, 100);
    assert_eq!(trades[0].quantity, 3);
    assert_eq!(trades[0].buyer_id, "A");
    assert_eq!(trades[0].seller_id, "B");
    assert_eq!(trades[1].price, 101);
    assert_eq!(trades[1].quantity, 2);
    assert_eq!(trades[1].seller_id, "C");
    let depth = book.get_depth();
    assert_eq!(depth.bids.len(), 0);
    assert_eq!(depth.asks.len(), 1);
    assert_eq!(depth.asks[0].price, 101);
    assert_eq!(depth.asks[0].quantity, 2);
}

#[test]
fn cancel_unknown_id_is_a_silent_noop() {
    let mut book = OrderBook::default();
    book.create_order(limit(Side::Buy, 100, 10, "A"));
    book.create_order(limit(Side::Sell, 105, 7, "B"));
    book.delete_order(DeleteOrder { order_id: 999, user_id: String::from("A") });
    let depth = book.get_depth();
    assert_eq!(depth.bids.len(), 1);
    assert_eq!(depth.bids[0].price, 100);
    assert_eq!(depth.bids[0].quantity, 10);
    assert_eq!(depth.asks.len(), 1);
    assert_eq!(depth.asks[0].price, 105);
    assert_eq!(depth.asks[0].quantity, 7);
}

#[test]
fn cancel_resting_order_removes_its_level() {
    let mut book = OrderBook::default();
    let r = book.create_order(limit(Side::Buy, 100, 10, "A"));
    book.create_order(limit(Side::Buy, 99, 5, "B"));
    book.delete_order(DeleteOrder { order_id: r.order_id, user_id: String::from("A") });
    let depth = book.get_depth();
    assert_eq!(depth.bids.len(), 1);
    assert_eq!(depth.bids[0].price, 99);
    assert_eq!(depth.bids[0].quantity, 5);
}

#[test]
fn market_sell_sweeps_highest_bid_first() {
    let mut book = OrderBook::default();
    book.create_order(limit(Side::Buy, 98, 4, "A"));
    book.create_order(limit(Side::Buy, 100, 3, "B"));
    let r = book.create_order(market(Side::Sell, 5, "S"));
    assert_eq!(r.filled_quantity, 5);
    assert_eq!(r.remaining_quantity, 0);
    let trades = book.get_trades();
    assert_eq!(trades.len(), 2);
    assert_eq!(trades[0].price, 100);
    assert_eq!(trades[0].quantity, 3);
    assert_eq!(trades[0].buyer_id, "B");
    assert_eq!(trades[0].seller_id, "S");
    assert_eq!(trades[1].price, 98);
    assert_eq!(trades[1].quantity, 2);
    assert_eq!(trades[1].buyer_id, "A");
    let depth = book.get_depth();
    assert_eq!(depth.bids.len(), 1);
    assert_eq!(depth.bids[0].price, 98);
    assert_eq!(depth.bids[0].quantity, 2);
}

#[test]
fn fifo_within_one_level() {
    let mut book = OrderBook::default();
    book.create_order(limit(Side::Sell, 100, 4, "first"));
    book.create_order(limit(Side::Sell, 100, 4, "second"));
    let r = book.create_order(market(Side::Buy, 6, "T"));
    assert_eq!(r.filled_quantity, 6);
    let trades = book.get_trades();
    assert_eq!(trades.len(), 2);
    assert_eq!(trades[0].seller_id, "first");
    assert_eq!(trades[0].quantity, 4);
    assert_eq!(trades[1].seller_id, "second");
    assert_eq!(trades[1].quantity, 2);
    let depth = book.get_depth();
    assert_eq!(depth.asks.len(), 1);
    assert_eq!(depth.asks[0].quantity, 2);
}

#[test]
fn limit_buy_does_not_cross_above_its_price() {
    let mut book = OrderBook::default();
    book.create_order(limit(Side::Sell, 101, 5, "B"));
    let r = book.create_order(limit(Side::Buy, 100, 5, "A"));
    assert_eq!(r.filled_quantity, 0);
    assert_eq!(r.remaining_quantity, 5);
    assert_eq!(book.get_trades().len(), 0);
    let depth = book.get_depth();
    assert_eq!(depth.bids.len(), 1);
    assert_eq!(depth.bids[0].price, 100);
    assert_eq!(depth.asks.len(), 1);
    assert_eq!(depth.asks[0].price, 101);
}

#[test]
fn limit_sell_does_not_cross_below_its_price() {
    let mut book = OrderBook::default();
    book.create_order(limit(Side::Buy, 99, 5, "A"));
    let r = book.create_order(limit(Side::Sell, 100, 5, "B"));
    assert_eq!(r.filled_quantity, 0);
    assert_eq!(r.remaining_quantity, 5);
    assert_eq!(book.get_trades().len(), 0);
}

#[test]
fn limit_sell_takes_the_resting_bid_price() {
    let mut book = OrderBook::default();
    book.create_order(limit(Side::Buy, 102, 5, "A"));
    let r = book.create_order(limit(Side::Sell, 100, 3, "B"));
    assert_eq!(r.filled_quantity, 3);
    let trades = book.get_trades();
    assert_eq!(trades.len(), 1);
    assert_eq!(trades[0].price, 102);
    assert_eq!(trades[0].buyer_id, "A");
    assert_eq!(trades[0].seller_id, "B");
}

#[test]
fn order_ids_are_assigned_in_sequence_even_when_fully_filled() {
    let mut book = OrderBook::default();
    let a = book.create_order(limit(Side::Sell, 100, 5, "A"));
    let b = book.create_order(market(Side::Buy, 5, "B"));
    let c = book.create_order(limit(Side::Buy, 90, 1, "C"));
    assert_eq!(a.order_id, 0);
    assert_eq!(b.order_id, 1);
    assert_eq!(c.order_id, 2);
    assert_eq!(book.order_id_index, 3);
}

#[test]
fn zero_quantity_orders_fill_nothing_and_never_rest() {
    let mut book = OrderBook::default();
    book.create_order(limit(Side::Sell, 100, 5, "B"));
    let m = book.create_order(market(Side::Buy, 0, "A"));
    assert_eq!(m.filled_quantity, 0);
    assert_eq!(m.remaining_quantity, 0);
    let l = book.create_order(limit(Side::Buy, 100, 0, "A"));
    assert_eq!(l.filled_quantity, 0);
    let depth = book.get_depth();
    assert_eq!(depth.bids.len(), 0);
    assert_eq!(depth.asks.len(), 1);
    assert_eq!(depth.asks[0].quantity, 5);
    assert_eq!(book.get_trades().len(), 0);
}

#[test]
fn market_order_on_empty_book_fills_nothing() {
    let mut book = OrderBook::default();
    let r = book.create_order(market(Side::Sell, 7, "A"));
    assert_eq!(r.filled_quantity, 0);
    assert_eq!(r.remaining_quantity, 7);
    let depth = book.get_depth();
    assert_eq!(depth.bids.len(), 0);
    assert_eq!(depth.asks.len(), 0);
}

#[test]
fn partial_fill_leaves_remainder_resting_at_own_price() {
    let mut book = OrderBook::default();
    book.create_order(limit(Side::Sell, 100, 2, "B"));
    let r = book.create_order(limit(Side::Buy, 100, 10, "A"));
    assert_eq!(r.filled_quantity, 2);
    assert_eq!(r.remaining_quantity, 8);
    let depth = book.get_depth();
    assert_eq!(depth.asks.len(), 0);
    assert_eq!(depth.bids.len(), 1);
    assert_eq!(depth.bids[0].price, 100);
    assert_eq!(depth.bids[0].quantity, 8);
}

#[test]
fn depth_orders_bids_descending_and_asks_ascending() {
    let mut book = OrderBook::default();
    book.create_order(limit(Side::Buy, 98, 1, "A"));
    book.create_order(limit(Side::Buy, 100, 2, "A"));
    book.create_order(limit(Side::Buy, 99, 3, "A"));
    book.create_order(limit(Side::Sell, 103, 4, "B"));
    book.create_order(limit(Side::Sell, 101, 5, "B"));
    book.create_order(limit(Side::Sell, 102, 6, "B"));
    let depth = book.get_depth();
    let bid_prices: Vec<u64> = depth.bids.iter().map(|d| d.price).collect();
    let ask_prices: Vec<u64> = depth.asks.iter().map(|d| d.price).collect();
    assert_eq!(bid_prices, vec![100, 99, 98]);
    assert_eq!(ask_prices, vec![101, 102, 103]);
}

#[test]
fn trade_quantities_sum_to_reported_fill() {
    let mut book = OrderBook::default();
    book.create_order(limit(Side::Sell, 100, 3, "B"));
    book.create_order(limit(Side::Sell, 101, 4, "C"));
    book.create_order(limit(Side::Sell, 102, 5, "D"));
    let r = book.create_order(market(Side::Buy, 9, "A"));
    assert_eq!(r.filled_quantity, 9);
    let total: u64 = book.get_trades().iter().map(|t| t.quantity).sum();
    assert_eq!(total, 9);
}

#[test]
fn same_price_orders_merge_into_one_level() {
    let mut book = OrderBook::default();
    book.create_order(limit(Side::Sell, 100, 3, "B"));
    book.create_order(limit(Side::Sell, 100, 4, "C"));
    let depth = book.get_depth();
    assert_eq!(depth.asks.len(), 1);
    assert_eq!(depth.asks[0].price, 100);
    assert_eq!(depth.asks[0].quantity, 7);
}

#[test]
fn depth_total_can_exceed_one_order_range() {
    let mut book = OrderBook::default();
    book.create_order(limit(Side::Sell, 100, u64::MAX, "B"));
    book.create_order(limit(Side::Sell, 100, u64::MAX, "C"));
    let depth = book.get_depth();
    assert_eq!(depth.asks.len(), 1);
    assert_eq!(depth.asks[0].quantity, 2 * (u64::MAX as u128));
}

#[test]
fn cancel_one_of_two_orders_at_a_level_keeps_the_other() {
    let mut book = OrderBook::default();
    let first = book.create_order(limit(Side::Sell, 100, 3, "B"));
    book.create_order(limit(Side::Sell, 100, 4, "C"));
    book.delete_order(DeleteOrder { order_id: first.order_id, user_id: String::from("B") });
    let depth = book.get_depth();
    assert_eq!(depth.asks.len(), 1);
    assert_eq!(depth.asks[0].quantity, 4);
    let r = book.create_order(market(Side::Buy, 1, "A"));
    assert_eq!(r.filled_quantity, 1);
    assert_eq!(book.get_trades()[0].seller_id, "C");
}
