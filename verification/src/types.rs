use vstd::prelude::*;

verus! {

/// Which side of the market an order takes.
#[derive(Clone, Copy, PartialEq, Eq, Structural, Debug)]
pub enum Side {
    Buy,
    Sell,
}

/// Whether an incoming order takes whatever price the book offers (market)
/// or carries a limit price of its own.
#[derive(Clone, Copy, PartialEq, Eq, Structural, Debug)]
pub enum OrderType {
    Market,
    Limit,
}

/// A request to place a new order. Prices and quantities are integers:
/// a price is a whole number of ticks, a quantity a whole number of lots.
pub struct CreateOrder {
    pub price: u64,
    pub quantity: u64,
    pub user_id: String,
    pub side: Side,
    pub order_type: OrderType,
}

/// A request to cancel a resting order by its identifier.
pub struct DeleteOrder {
    pub order_id: u64,
    pub user_id: String,
}

/// What a create-order request reports back: the identifier the order was
/// assigned, how much of it matched at once, and how much did not.
pub struct CreateOrderResponse {
    pub order_id: u64,
    pub filled_quantity: u64,
    pub remaining_quantity: u64,
    pub average_price: u64,
}

/// What a delete-order request reports back.
pub struct DeleteOrderResponse {
    pub success: bool,
    pub filled_quantity: u64,
    pub remaining_quantity: u64,
    pub average_price: u64,
}

/// An immutable record of one fill: `quantity` units changed hands at
/// `price` between `buyer_id` and `seller_id`.
pub struct Trade {
    pub price: u64,
    pub quantity: u64,
    pub buyer_id: String,
    pub seller_id: String,
    pub timestamp: u64,
}

/// A limit order resting in the book. `filled_quantity` grows with every
/// partial fill; the order leaves the book when it reaches `quantity`.
pub struct OpenOrder {
    pub price: u64,
    pub quantity: u64,
    pub side: Side,
    pub user_id: String,
    pub order_id: u64,
    pub filled_quantity: u64,
}

/// One side's resting orders at one price, in arrival (FIFO) order.
pub struct Level {
    pub price: u64,
    pub orders: Vec<OpenOrder>,
}

/// The mathematical image of a `Level`: the same price over the sequence
/// of resting orders.
#[verifier::ext_equal]
pub ghost struct LevelV {
    pub price: u64,
    pub orders: Seq<OpenOrder>,
}

impl View for Level {
    type V = LevelV;

    open spec fn view(&self) -> LevelV {
        LevelV { price: self.price, orders: self.orders@ }
    }
}

/// One fill produced while sweeping the book: `qty` units taken at `price`
/// from the resting order owned by `maker`.
pub struct FillRec {
    pub price: u64,
    pub qty: u64,
    pub maker: String,
}

/// One line of a depth snapshot: the total unfilled quantity resting at
/// one price. The total is wide enough for any sum of order quantities.
pub struct Depth {
    pub price: u64,
    pub quantity: u128,
}

/// A depth snapshot of both books: bids best (highest) price first,
/// asks best (lowest) price first.
pub struct DepthResponse {
    pub bids: Vec<Depth>,
    pub asks: Vec<Depth>,
}

} // verus!
