//! Depth snapshots of an order book.

use vstd::prelude::*;

use crate::types::{Price, Quantity};

verus! {

/// A price level and the total quantity that remains at it.
#[derive(Debug, Clone, Copy, PartialEq, Eq, Structural)]
pub struct LevelInfo {
    /// Price in quote units.
    pub price: Price,
    /// Total remaining quantity across all orders at this price.
    pub quantity: Quantity,
}

impl LevelInfo {
    /// Creates a price level snapshot.
    pub fn new(price: Price, quantity: Quantity) -> (l: Self)
        ensures
            l.price == price,
            l.quantity == quantity,
    {
        LevelInfo { price, quantity }
    }
}

/// A sequence of price levels.
pub type LevelInfos = Vec<LevelInfo>;

/// A depth snapshot: bid levels and ask levels, each ascending by price
/// (the best bid is the last bid level, the best ask the first ask level).
#[derive(Debug)]
pub struct OrderBookLevelInfo {
    bids: LevelInfos,
    asks: LevelInfos,
}

impl Clone for OrderBookLevelInfo {
    /// Returns a copy of the snapshot.
    fn clone(&self) -> (s: Self)
        ensures
            s.bids() == self.bids(),
            s.asks() == self.asks(),
    {
        OrderBookLevelInfo { bids: self.bids.clone(), asks: self.asks.clone() }
    }
}

impl OrderBookLevelInfo {
    /// The bid levels of the snapshot.
    pub closed spec fn bids(self) -> Seq<LevelInfo> {
        self.bids@
    }

    /// The ask levels of the snapshot.
    pub closed spec fn asks(self) -> Seq<LevelInfo> {
        self.asks@
    }

    /// Creates a snapshot from bid levels and ask levels.
    pub fn new(bids_: LevelInfos, asks_: LevelInfos) -> (s: Self)
        ensures
            s.bids() == bids_@,
            s.asks() == asks_@,
    {
        OrderBookLevelInfo { bids: bids_, asks: asks_ }
    }

    /// Returns the bid levels.
    pub fn get_bids(&self) -> (r: LevelInfos)
        ensures
            r@ == self.bids(),
    {
        self.bids.clone()
    }

    /// Returns the ask levels.
    pub fn get_asks(&self) -> (r: LevelInfos)
        ensures
            r@ == self.asks(),
    {
        self.asks.clone()
    }
}

} // verus!
