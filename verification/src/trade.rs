//! A fill between a buy order and a sell order.

use vstd::prelude::*;

use crate::types::{OrderId, Price, Quantity, TradeId, UserId};

verus! {

/// One side of a trade: the order, its limit price, the matched quantity and its owner.
#[derive(Debug, Clone, Copy, PartialEq, Eq, Structural)]
pub struct TradeInfo {
    pub order_id: OrderId,
    pub price: Price,
    pub quantity: Quantity,
    pub user_id: UserId,
}

impl TradeInfo {
    /// Creates one side of a trade.
    pub fn new(order_id: OrderId, price: Price, quantity: Quantity, user_id: UserId) -> (t: Self)
        ensures
            t == (TradeInfo { order_id, price, quantity, user_id }),
    {
        TradeInfo { order_id, price, quantity, user_id }
    }

    /// Returns the order of this side.
    pub fn get_order_id(&self) -> (r: OrderId)
        ensures
            r == self.order_id,
    {
        self.order_id
    }

    /// Returns the limit price of the order of this side.
    pub fn get_price(&self) -> (r: Price)
        ensures
            r == self.price,
    {
        self.price
    }

    /// Returns the matched quantity.
    pub fn get_quantity(&self) -> (r: Quantity)
        ensures
            r == self.quantity,
    {
        self.quantity
    }

    /// Returns the owner of the order of this side.
    pub fn get_user_id(&self) -> (r: UserId)
        ensures
            r == self.user_id,
    {
        self.user_id
    }
}

/// A matched fill: the buy side, the sell side, an identifier and a time.
#[derive(Debug, Clone, Copy, PartialEq, Eq, Structural)]
pub struct Trade {
    pub trade_id: TradeId,
    pub timestamp: u64,
    pub bid_trade: TradeInfo,
    pub ask_trade: TradeInfo,
}

/// A sequence of trades, oldest first.
pub type Trades = Vec<Trade>;

impl Trade {
    /// Creates a trade.
    pub fn new(trade_id: TradeId, timestamp: u64, bid_trade: TradeInfo, ask_trade: TradeInfo) -> (t: Self)
        ensures
            t == (Trade { trade_id, timestamp, bid_trade, ask_trade }),
    {
        Trade { trade_id, timestamp, bid_trade, ask_trade }
    }

    /// Returns the trade ID.
    pub fn get_trade_id(&self) -> (r: TradeId)
        ensures
            r == self.trade_id,
    {
        self.trade_id
    }

    /// Returns the trade time.
    pub fn get_timestamp(&self) -> (r: u64)
        ensures
            r == self.timestamp,
    {
        self.timestamp
    }

    /// Overwrites the trade ID.
    pub fn set_trade_id(&mut self, id: TradeId)
        ensures
            *final(self) == (Trade { trade_id: id, ..*old(self) }),
    {
        self.trade_id = id;
    }

    /// Overwrites the trade time.
    pub fn set_timestamp(&mut self, ts: u64)
        ensures
            *final(self) == (Trade { timestamp: ts, ..*old(self) }),
    {
        self.timestamp = ts;
    }

    /// Returns the buy side of the trade.
    pub fn get_bid_trade_info(&self) -> (r: TradeInfo)
        ensures
            r == self.bid_trade,
    {
        self.bid_trade
    }

    /// Returns the sell side of the trade.
    pub fn get_ask_trade_info(&self) -> (r: TradeInfo)
        ensures
            r == self.ask_trade,
    {
        self.ask_trade
    }
}

} // verus!
