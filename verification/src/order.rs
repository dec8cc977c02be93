//! Orders, trades and the state of the book, with their mathematical views.

use vstd::prelude::*;

verus! {

/// The side of the book an order belongs to.
#[derive(Debug, PartialEq, Eq, Clone, Copy, Hash, Structural)]
pub enum OrderType {
    Bid,
    Ask,
}

impl OrderType {
    /// The other side of the book.
    pub open spec fn opposite(self) -> OrderType {
        match self {
            OrderType::Bid => OrderType::Ask,
            OrderType::Ask => OrderType::Bid,
        }
    }
}

/// A limit order. The price is a fixed-point integer in units of the smallest
/// quote increment.
#[derive(Debug, PartialEq, Eq, Hash)]
pub struct Order {
    pub id: String,
    pub address: String,
    pub order_type: OrderType,
    pub price: u64,
    pub quantity: u64,
}

/// The mathematical value of an [`Order`].
pub ghost struct OrderView {
    pub id: Seq<char>,
    pub address: Seq<char>,
    pub order_type: OrderType,
    pub price: u64,
    pub quantity: u64,
}

impl View for Order {
    type V = OrderView;

    open spec fn view(&self) -> OrderView {
        OrderView {
            id: self.id@,
            address: self.address@,
            order_type: self.order_type,
            price: self.price,
            quantity: self.quantity,
        }
    }
}

impl Clone for Order {
    fn clone(&self) -> (copy: Order)
        ensures
            copy@ == self@,
    {
        Order {
            id: self.id.clone(),
            address: self.address.clone(),
            order_type: self.order_type,
            price: self.price,
            quantity: self.quantity,
        }
    }
}

/// One execution: the two orders as they stood when they met, the price and
/// the quantity exchanged.
#[derive(Debug, PartialEq, Eq, Hash)]
pub struct Trade {
    pub id: String,
    pub ask_order: Order,
    pub bid_order: Order,
    pub price: u64,
    pub quantity: u64,
}

/// The mathematical value of a [`Trade`].
pub ghost struct TradeView {
    pub id: Seq<char>,
    pub ask_order: OrderView,
    pub bid_order: OrderView,
    pub price: u64,
    pub quantity: u64,
}

impl View for Trade {
    type V = TradeView;

    open spec fn view(&self) -> TradeView {
        TradeView {
            id: self.id@,
            ask_order: self.ask_order@,
            bid_order: self.bid_order@,
            price: self.price,
            quantity: self.quantity,
        }
    }
}

impl Clone for Trade {
    fn clone(&self) -> (copy: Trade)
        ensures
            copy@ == self@,
    {
        Trade {
            id: self.id.clone(),
            ask_order: self.ask_order.clone(),
            bid_order: self.bid_order.clone(),
            price: self.price,
            quantity: self.quantity,
        }
    }
}

/// Why an incoming order was refused.
#[derive(Debug, PartialEq, Eq, Clone, Copy, Structural)]
pub enum ValidationError {
    /// The price of the incoming order is zero.
    ZeroPrice,
    /// The quantity of the incoming order is zero.
    ZeroQuantity,
}

impl ValidationError {
    /// A short description of the error.
    pub fn message(&self) -> (text: String)
        ensures
            text@ == match *self {
                ValidationError::ZeroPrice => "order price must be positive"@,
                ValidationError::ZeroQuantity => "order quantity must be positive"@,
            },
    {
        match self {
            ValidationError::ZeroPrice => "order price must be positive".to_owned(),
            ValidationError::ZeroQuantity => "order quantity must be positive".to_owned(),
        }
    }
}

/// The views of a sequence of orders, position by position.
pub open spec fn order_views(orders: Seq<Order>) -> Seq<OrderView> {
    Seq::new(orders.len(), |i: int| orders[i]@)
}

/// The views of a sequence of trades, position by position.
pub open spec fn trade_views(trades: Seq<Trade>) -> Seq<TradeView> {
    Seq::new(trades.len(), |i: int| trades[i]@)
}

/// Both books and the trade log.
#[derive(Debug, PartialEq, Eq, Hash)]
pub struct State {
    pub pending_bid_orders: Vec<Order>,
    pub pending_ask_orders: Vec<Order>,
    pub trades: Vec<Trade>,
}

/// The mathematical value of a [`State`].
pub ghost struct StateView {
    pub bids: Seq<OrderView>,
    pub asks: Seq<OrderView>,
    pub trades: Seq<TradeView>,
}

impl StateView {
    /// The book that holds the resting orders of `side`.
    pub open spec fn book(self, side: OrderType) -> Seq<OrderView> {
        match side {
            OrderType::Bid => self.bids,
            OrderType::Ask => self.asks,
        }
    }
}

impl View for State {
    type V = StateView;

    open spec fn view(&self) -> StateView {
        StateView {
            bids: order_views(self.pending_bid_orders@),
            asks: order_views(self.pending_ask_orders@),
            trades: trade_views(self.trades@),
        }
    }
}

} // verus!
