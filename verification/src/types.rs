//! Core scalar aliases and the small enums shared by every other module.

use vstd::prelude::*;

verus! {

/// Limit price in quote units.
pub type Price = i32;

/// Quantity in base units.
pub type Quantity = u32;

/// Identifier of an order.
pub type OrderId = u64;

/// Identifier of a trade.
pub type TradeId = u64;

/// Identifier of a user: the 128-bit value of the user's UUID.
pub type UserId = u128;

/// How long an order lives.
#[derive(Debug, Clone, Copy, PartialEq, Eq, Structural)]
pub enum OrderType {
    GoodTillCancel,
    GoodForDay,
    FillAndKill,
    FillOrKill,
}

/// Which side of the book an order is on.
#[derive(Debug, Clone, Copy, PartialEq, Eq, Structural)]
pub enum Side {
    Buy,
    Sell,
}

/// Lifecycle state of an order.
#[derive(Debug, Clone, Copy, PartialEq, Eq, Structural)]
pub enum OrderStatus {
    Cancelled,
    PartiallyFilled,
    Filled,
    Empty,
}

/// The assets traded on the exchange.
#[derive(Debug, Clone, Copy, PartialEq, Eq, Hash, Structural)]
pub enum Asset {
    ETH,
    SOL,
    BTC,
    USDC,
    USDT,
}

/// Number of distinct assets.
pub const ASSET_COUNT: usize = 5;

/// The position of an asset in the fixed asset order ETH, SOL, BTC, USDC, USDT.
pub open spec fn asset_index(a: Asset) -> int {
    match a {
        Asset::ETH => 0,
        Asset::SOL => 1,
        Asset::BTC => 2,
        Asset::USDC => 3,
        Asset::USDT => 4,
    }
}

/// The asset at a position of the fixed asset order.
pub open spec fn asset_at(i: int) -> Asset {
    if i == 0 {
        Asset::ETH
    } else if i == 1 {
        Asset::SOL
    } else if i == 2 {
        Asset::BTC
    } else if i == 3 {
        Asset::USDC
    } else {
        Asset::USDT
    }
}

/// Returns the position of `a` in the fixed asset order.
pub fn asset_slot(a: Asset) -> (i: usize)
    ensures
        i == asset_index(a),
        i < ASSET_COUNT,
{
    match a {
        Asset::ETH => 0,
        Asset::SOL => 1,
        Asset::BTC => 2,
        Asset::USDC => 3,
        Asset::USDT => 4,
    }
}

/// Returns the asset at position `i` of the fixed asset order.
pub fn asset_from_slot(i: usize) -> (a: Asset)
    requires
        i < ASSET_COUNT,
    ensures
        a == asset_at(i as int),
        asset_index(a) == i,
{
    if i == 0 {
        Asset::ETH
    } else if i == 1 {
        Asset::SOL
    } else if i == 2 {
        Asset::BTC
    } else if i == 3 {
        Asset::USDC
    } else {
        Asset::USDT
    }
}

/// Every asset has a position below `ASSET_COUNT`, and the position determines the asset.
pub proof fn lemma_asset_index_bijective(a: Asset, b: Asset)
    ensures
        0 <= asset_index(a) < ASSET_COUNT,
        asset_at(asset_index(a)) == a,
        asset_index(a) == asset_index(b) <==> a == b,
{
}

} // verus!
