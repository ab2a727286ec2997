//! Identifier of a market: the base asset traded against a quote asset.

use vstd::prelude::*;

use crate::types::Asset;

verus! {

/// A base/quote asset pair, such as ETH-USDC.
#[derive(Debug, Clone, Copy, PartialEq, Eq, Hash, Structural)]
pub struct TradingPair {
    pub base: Asset,
    pub quote: Asset,
}

impl TradingPair {
    /// Creates the pair `base`-`quote`.
    pub fn new(base: Asset, quote: Asset) -> (p: Self)
        ensures
            p.base == base,
            p.quote == quote,
    {
        TradingPair { base, quote }
    }
}

} // verus!
