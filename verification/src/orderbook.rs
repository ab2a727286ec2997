//! Price-time priority order book for a single trading pair.
//!
//! Each side is kept as one vector of resting orders in priority order: best price
//! first and, within a price, oldest first. An incoming order is matched against the
//! opposite side before what remains of it joins its own side.

use vstd::prelude::*;

use crate::book_model::{
    crosses, distinct_ids, id_at, law_add_keeps_wf, law_cancel_keeps_wf, lemma_placement, lemma_levels_fit_prefix, levels, levels_fit, match_against, placement, position_of,
    side_has, trade_of, BookView, RestingOrder,
};
use crate::order::{filled_by, same_order, Order};
use crate::level_info::{LevelInfo, LevelInfos, OrderBookLevelInfo};
use crate::order_modify::OrderModify;
use crate::trade::{Trade, TradeInfo, Trades};
use crate::types::{OrderId, OrderStatus, OrderType, Price, Quantity, Side};

verus! {

/// A price-time priority order book for one trading pair.
#[derive(Debug)]
pub struct OrderBook {
    bids: Vec<RestingOrder>,
    asks: Vec<RestingOrder>,
}

impl View for OrderBook {
    type V = BookView;

    closed spec fn view(&self) -> BookView {
        BookView { bids: self.bids@, asks: self.asks@ }
    }
}

/// The order that replaces the one named by `m`, of type `order_type`, created at `timestamp`.
pub open spec fn replacement(m: OrderModify, order_type: OrderType, timestamp: u64) -> Order {
    Order {
        order_id: m.order_id,
        order_type,
        side: m.side,
        status: m.status,
        price: m.price,
        initial_quantity: m.quantity,
        remaining_quantity: m.quantity,
        timestamp,
        user_id: m.user_id,
    }
}

/// Returns whether `incoming` is priced to trade with `resting`.
fn crosses_exec(incoming: &Order, resting: &Order) -> (b: bool)
    ensures
        b == crosses(*incoming, *resting),
{
    match incoming.side {
        Side::Buy => incoming.price >= resting.price,
        Side::Sell => incoming.price <= resting.price,
    }
}

/// Builds the trade of `q` units between `incoming` and `resting`.
fn trade_exec(incoming: &Order, resting: &Order, q: Quantity) -> (t: Trade)
    ensures
        t == trade_of(*incoming, *resting, q),
{
    let (bid, ask) = match incoming.side {
        Side::Buy => (incoming, resting),
        Side::Sell => (resting, incoming),
    };
    Trade::new(
        0,
        0,
        TradeInfo::new(bid.order_id, bid.price, q, bid.user_id),
        TradeInfo::new(ask.order_id, ask.price, q, ask.user_id),
    )
}

/// Matches `incoming` against the opposite side `side`, in priority order, skipping
/// orders of its own user when `skip_own`.
fn match_incoming(side: &mut Vec<RestingOrder>, incoming: Order, skip_own: bool) -> (r: (Order, Trades, bool))
    ensures
        ({
            let m = match_against(incoming, old(side)@, skip_own);
            &&& r.0 == m.0
            &&& final(side)@ == m.1
            &&& r.1@ == m.2
            &&& r.2 == m.3
        }),
{
    let ghost s0 = side@;
    let mut inc = incoming;
    let mut trades: Trades = Vec::new();
    let mut i: usize = 0;
    let mut consumed = false;
    proof {
        assert(side@.take(0) + side@.skip(0) =~= side@);
        assert(trades@ + match_against(inc, side@.skip(0), skip_own).2 =~= match_against(inc, side@.skip(0), skip_own).2);
    }
    loop
        invariant_except_break
            i <= side.len(),
            !consumed,
            ({
                let m0 = match_against(incoming, s0, skip_own);
                let m = match_against(inc, side@.skip(i as int), skip_own);
                &&& m0.0 == m.0
                &&& m0.1 == side@.take(i as int) + m.1
                &&& m0.2 == trades@ + m.2
                &&& m0.3 == m.3
            }),
        ensures
            ({
                let m0 = match_against(incoming, s0, skip_own);
                &&& m0.0 == inc
                &&& m0.1 == side@
                &&& m0.2 == trades@
                &&& m0.3 == consumed
            }),
        decreases side.len() - i,
    {
        let ghost rest = side@.skip(i as int);
        if i >= side.len() {
            proof {
                assert(rest.len() == 0);
                assert(side@.take(i as int) =~= side@);
                assert(trades@ + Seq::<Trade>::empty() =~= trades@);
            }
            break;
        }
        let head = side[i];
        proof {
            assert(rest[0] == head);
            assert(rest.drop_first() =~= side@.skip(i + 1));
            assert(side@.take(i + 1) =~= side@.take(i as int) + seq![head]);
        }
        if !crosses_exec(&inc, &head.live) {
            proof {
                assert(side@.take(i as int) + rest =~= side@);
                assert(trades@ + Seq::<Trade>::empty() =~= trades@);
            }
            break;
        }
        if skip_own && head.live.user_id == inc.user_id {
            proof {
                let m = match_against(inc, rest.drop_first(), skip_own);
                assert(side@.take(i as int) + (seq![head] + m.1) =~= side@.take(i + 1) + m.1);
            }
            i = i + 1;
            continue;
        }
        let q = if inc.remaining_quantity <= head.live.remaining_quantity {
            inc.remaining_quantity
        } else {
            head.live.remaining_quantity
        };
        let t = trade_exec(&inc, &head.live, q);
        let ghost inc_before = inc;
        let _ = inc.fills(q);
        let mut live = head.live;
        let _ = live.fills(q);
        trades.push(t);
        let ghost prefix = side@.take(i as int);
        let ghost trades_before = trades@.drop_last();
        proof {
            assert(trades_before + seq![t] =~= trades@);
        }
        if live.remaining_quantity == 0 {
            side.remove(i);
            proof {
                assert(side@.take(i as int) =~= prefix);
                assert(side@.skip(i as int) =~= rest.drop_first());
            }
        } else {
            side[i] = RestingOrder { live, placed: head.placed };
            proof {
                assert(side@.take(i as int) =~= prefix);
            }
        }
        if inc.remaining_quantity == 0 {
            consumed = true;
            proof {
                if live.remaining_quantity == 0 {
                    assert(prefix + (Seq::<RestingOrder>::empty() + rest.drop_first()) =~= side@);
                } else {
                    assert(prefix + (seq![RestingOrder { live, placed: head.placed }] + rest.drop_first())
                        =~= side@);
                }
                assert(trades_before + seq![t] =~= trades@);
            }
            break;
        }
        proof {
            let m = match_against(inc, rest.drop_first(), skip_own);
            assert(prefix + (Seq::<RestingOrder>::empty() + m.1) =~= side@.take(i as int) + m.1);
            assert(trades_before + (seq![t] + m.2) =~= trades@ + m.2);
        }
    }
    (inc, trades, consumed)
}

/// Returns the position at which `o` joins the side `s`.
fn placement_exec(s: &Vec<RestingOrder>, o: &Order) -> (k: usize)
    ensures
        k == placement(s@, *o),
        k <= s@.len(),
{
    proof {
        lemma_placement(s@, *o);
    }
    let mut i: usize = 0;
    proof {
        assert(s@.skip(0) =~= s@);
    }
    while i < s.len()
        invariant
            i <= s.len(),
            placement(s@, *o) == i + placement(s@.skip(i as int), *o),
        decreases s.len() - i,
    {
        let before = match o.side {
            Side::Buy => s[i].live.price >= o.price,
            Side::Sell => s[i].live.price <= o.price,
        };
        proof {
            assert(s@.skip(i as int)[0] == s@[i as int]);
            assert(s@.skip(i as int).drop_first() =~= s@.skip(i + 1));
        }
        if !before {
            return i;
        }
        i = i + 1;
    }
    i
}

/// Returns the position of the order with ID `id` in `s`, if there is one.
fn find_id(s: &Vec<RestingOrder>, id: OrderId) -> (r: Option<usize>)
    ensures
        match r {
            Some(i) => i < s@.len() && id_at(s@, i as int) == id,
            None => !side_has(s@, id),
        },
{
    let mut i: usize = 0;
    while i < s.len()
        invariant
            i <= s.len(),
            forall|j: int| 0 <= j < i ==> id_at(s@, j) != id,
        decreases s.len() - i,
    {
        if s[i].live.order_id == id {
            return Some(i);
        }
        i = i + 1;
    }
    None
}

/// The levels of `s` (walked backwards when `backwards`), with their total remaining quantities.
fn collect_levels(s: &Vec<RestingOrder>, backwards: bool) -> (r: LevelInfos)
    requires
        levels_fit(if backwards { s@.reverse() } else { s@ }),
    ensures
        r@ == levels(if backwards { s@.reverse() } else { s@ }),
{
    let ghost t = if backwards { s@.reverse() } else { s@ };
    let n = s.len();
    let mut out: LevelInfos = Vec::new();
    let mut i: usize = 0;
    proof {
        assert(t.take(0) =~= Seq::<RestingOrder>::empty());
    }
    while i < n
        invariant
            n == s.len(),
            t.len() == n,
            t == (if backwards { s@.reverse() } else { s@ }),
            levels_fit(t),
            i <= n,
            out@ == levels(t.take(i as int)),
        decreases n - i,
    {
        let idx = if backwards { n - 1 - i } else { i };
        let o = s[idx].live;
        proof {
            assert(t[i as int] == s@[idx as int]);
            assert(t.take(i + 1).drop_last() =~= t.take(i as int));
            assert(t.take(i + 1).last() == t[i as int]);
            lemma_levels_fit_prefix(t, i + 1);
        }
        let len = out.len();
        if len > 0 && out[len - 1].price == o.price {
            let q = out[len - 1].quantity + o.remaining_quantity;
            out.set(len - 1, LevelInfo::new(o.price, q));
            proof {
                assert(out@ =~= levels(t.take(i as int)).drop_last().push(LevelInfo { price: o.price, quantity: q }));
            }
        } else {
            out.push(LevelInfo::new(o.price, o.remaining_quantity));
        }
        i = i + 1;
    }
    proof {
        assert(t.take(n as int) =~= t);
    }
    out
}

/// Whether the level totals of `s` (walked backwards when `backwards`) fit a `Quantity`.
fn levels_fit_check(s: &Vec<RestingOrder>, backwards: bool) -> (b: bool)
    ensures
        b == levels_fit(if backwards { s@.reverse() } else { s@ }),
{
    let ghost t = if backwards { s@.reverse() } else { s@ };
    let n = s.len();
    let mut has_last = false;
    let mut last_price: Price = 0;
    let mut last_qty: Quantity = 0;
    let mut i: usize = 0;
    proof {
        assert(t.take(0) =~= Seq::<RestingOrder>::empty());
    }
    while i < n
        invariant
            n == s.len(),
            t.len() == n,
            t == (if backwards { s@.reverse() } else { s@ }),
            i <= n,
            levels_fit(t.take(i as int)),
            has_last == (levels(t.take(i as int)).len() > 0),
            has_last ==> levels(t.take(i as int)).last() == (LevelInfo { price: last_price, quantity: last_qty }),
        decreases n - i,
    {
        let idx = if backwards { n - 1 - i } else { i };
        let o = s[idx].live;
        proof {
            assert(t[i as int] == s@[idx as int]);
            assert(t.take(i + 1).drop_last() =~= t.take(i as int));
            assert(t.take(i + 1).last() == t[i as int]);
        }
        if has_last && last_price == o.price {
            match last_qty.checked_add(o.remaining_quantity) {
                None => {
                    proof {
                        if levels_fit(t) {
                            lemma_levels_fit_prefix(t, i + 1);
                        }
                    }
                    return false;
                },
                Some(q) => {
                    last_qty = q;
                },
            }
        } else {
            has_last = true;
            last_price = o.price;
            last_qty = o.remaining_quantity;
        }
        i = i + 1;
    }
    proof {
        assert(t.take(n as int) =~= t);
    }
    true
}

/// In a side without repeated IDs, the position of an ID is the one found for it.
proof fn lemma_position_unique(s: Seq<RestingOrder>, id: OrderId, i: int)
    requires
        distinct_ids(s),
        0 <= i < s.len(),
        id_at(s, i) == id,
    ensures
        side_has(s, id),
        position_of(s, id) == i,
{
    assert(side_has(s, id));
    let j = position_of(s, id);
    assert(id_at(s, j) == id);
}

impl OrderBook {
    /// Creates an empty book.
    pub fn new() -> (b: Self)
        ensures
            b@.bids.len() == 0,
            b@.asks.len() == 0,
            b@.wf(),
    {
        OrderBook { bids: Vec::new(), asks: Vec::new() }
    }

    /// Returns whether the book takes `order` rather than rejecting it: its ID does not
    /// rest yet, and it is not a fill-and-kill order with nothing to trade against.
    pub(crate) fn accepts(&self, order: &Order) -> (b: bool)
        ensures
            b == (self@.add(*order, true) is Some),
            b == (self@.add(*order, false) is Some),
    {
        !self.has_order(&order.order_id) && !(order.order_type == OrderType::FillAndKill && !self.can_match(
            order.side,
            order.price,
        ))
    }

    /// Returns whether an order on `side` at `price` can trade with the best opposite order.
    fn can_match(&self, side: Side, price: Price) -> (b: bool)
        ensures
            b == self@.can_match(side, price),
    {
        match side {
            Side::Buy => self.asks.len() > 0 && price >= self.asks[0].live.price,
            Side::Sell => self.bids.len() > 0 && price <= self.bids[0].live.price,
        }
    }

    /// Cancels the resting order with ID `order_id`, returning it as it was placed,
    /// or `None` when no such order rests.
    pub fn cancel_order(&mut self, order_id: &OrderId) -> (r: Option<Order>)
        requires
            old(self)@.wf(),
        ensures
            final(self)@.wf(),
            (final(self)@, r) == old(self)@.cancel(*order_id),
    {
        let id = *order_id;
        proof {
            law_cancel_keeps_wf(self@, id);
        }
        match find_id(&self.bids, id) {
            Some(i) => {
                proof {
                    lemma_position_unique(self.bids@, id, i as int);
                }
                let r = self.bids.remove(i);
                Some(r.placed)
            },
            None => match find_id(&self.asks, id) {
                Some(i) => {
                    proof {
                        lemma_position_unique(self.asks@, id, i as int);
                    }
                    let r = self.asks.remove(i);
                    Some(r.placed)
                },
                None => None,
            },
        }
    }

    /// Places `order`: rejects it (`None`) when its ID already rests or when it is
    /// fill-and-kill and cannot trade at once; otherwise matches it against the
    /// opposite side, orders of every user included, and returns the trades, with
    /// placeholder IDs and times (`0`).
    pub fn add_order(&mut self, order: Order) -> (r: Option<Trades>)
        requires
            old(self)@.wf(),
        ensures
            final(self)@.wf(),
            match old(self)@.add(order, false) {
                None => r is None && final(self)@ == old(self)@,
                Some((b, t)) => r matches Some(v) && v@ == t && final(self)@ == b,
            },
    {
        self.place(order, false)
    }

    /// Places `order` as [`OrderBook::add_order`] does, except that resting orders of
    /// the order's own user are passed over (no self-trade).
    pub fn add_order_without_self_trades(&mut self, order: Order) -> (r: Option<Trades>)
        requires
            old(self)@.wf(),
        ensures
            final(self)@.wf(),
            match old(self)@.add(order, true) {
                None => r is None && final(self)@ == old(self)@,
                Some((b, t)) => r matches Some(v) && v@ == t && final(self)@ == b,
            },
    {
        self.place(order, true)
    }

    /// Places `order`, skipping resting orders of its own user when `skip_own`.
    pub(crate) fn place(&mut self, order: Order, skip_own: bool) -> (r: Option<Trades>)
        requires
            old(self)@.wf(),
        ensures
            final(self)@.wf(),
            match old(self)@.add(order, skip_own) {
                None => r is None && final(self)@ == old(self)@,
                Some((b, t)) => r matches Some(v) && v@ == t && final(self)@ == b,
            },
    {
        proof {
            if self@.add(order, skip_own) is Some {
                law_add_keeps_wf(self@, order, skip_own);
            }
        }
        if self.has_order(&order.order_id) {
            return None;
        }
        if order.order_type == OrderType::FillAndKill && !self.can_match(order.side, order.price) {
            return None;
        }
        let ghost b0 = self@;
        match order.side {
            Side::Buy => {
                let (inc, trades, consumed) = match_incoming(&mut self.asks, order, skip_own);
                if !consumed && order.order_type != OrderType::FillAndKill {
                    let k = placement_exec(&self.bids, &inc);
                    self.bids.insert(k, RestingOrder { live: inc, placed: order });
                }
                proof {
                    assert(self@ == b0.add(order, skip_own).unwrap().0);
                }
                Some(trades)
            },
            Side::Sell => {
                let (inc, trades, consumed) = match_incoming(&mut self.bids, order, skip_own);
                if !consumed && order.order_type != OrderType::FillAndKill {
                    let k = placement_exec(&self.asks, &inc);
                    self.asks.insert(k, RestingOrder { live: inc, placed: order });
                }
                proof {
                    assert(self@ == b0.add(order, skip_own).unwrap().0);
                }
                Some(trades)
            },
        }
    }

    /// Replaces the resting order named by `order_modify` (cancel, then place a new
    /// order of the same type with the new side, price, quantity and status).
    /// `None`, with the book unchanged, when no such order rests.
    pub fn modify_orders(&mut self, order_modify: OrderModify) -> (r: Option<Trades>)
        requires
            old(self)@.wf(),
        ensures
            final(self)@.wf(),
            !old(self)@.contains(order_modify.order_id) ==> r is None && final(self)@ == old(self)@,
            old(self)@.contains(order_modify.order_id) ==> exists|ts: u64|
                #![trigger replacement(order_modify, old(self)@.order_type_of(order_modify.order_id).unwrap(), ts)]
                {
                    let o = replacement(order_modify, old(self)@.order_type_of(order_modify.order_id).unwrap(), ts);
                    let c = old(self)@.cancel(order_modify.order_id).0;
                    match c.add(o, false) {
                        None => r is None && final(self)@ == c,
                        Some((b, t)) => r matches Some(v) && v@ == t && final(self)@ == b,
                    }
                },
    {
        let order_id = order_modify.get_order_id();
        let order_type = match self.get_order_type(&order_id) {
            Some(t) => t,
            None => return None,
        };
        let new_order = Order::new(
            order_id,
            order_type,
            order_modify.get_side(),
            order_modify.get_status(),
            order_modify.get_price(),
            order_modify.get_quantity(),
            order_modify.get_user_id(),
        );
        proof {
            assert(new_order == replacement(order_modify, order_type, new_order.timestamp));
        }
        let _ = self.cancel_order(&order_id);
        self.add_order(new_order)
    }

    /// Returns a depth snapshot: the levels of each side with their total remaining
    /// quantities, bids and asks each ascending by price.
    pub fn get_order_info(&self) -> (info: OrderBookLevelInfo)
        requires
            self@.depth_fits(),
        ensures
            info.bids() == self@.bid_levels(),
            info.asks() == self@.ask_levels(),
    {
        let bids = collect_levels(&self.bids, true);
        let asks = collect_levels(&self.asks, false);
        OrderBookLevelInfo::new(bids, asks)
    }

    /// Returns whether the total remaining quantity of every level fits a `Quantity`, so
    /// that a depth snapshot can be taken.
    pub fn depth_fits(&self) -> (b: bool)
        ensures
            b == self@.depth_fits(),
    {
        levels_fit_check(&self.bids, true) && levels_fit_check(&self.asks, false)
    }

    /// Returns the number of resting orders.
    pub fn size(&self) -> (n: usize)
        requires
            self@.size() <= usize::MAX,
        ensures
            n == self@.size(),
    {
        self.bids.len() + self.asks.len()
    }

    /// Returns whether an order with ID `order_id` rests in the book.
    pub fn has_order(&self, order_id: &OrderId) -> (b: bool)
        ensures
            b == self@.contains(*order_id),
    {
        find_id(&self.bids, *order_id).is_some() || find_id(&self.asks, *order_id).is_some()
    }

    /// Returns the type of the resting order with ID `order_id`, if there is one.
    pub fn get_order_type(&self, order_id: &OrderId) -> (r: Option<OrderType>)
        requires
            self@.wf(),
        ensures
            r == self@.order_type_of(*order_id),
    {
        match find_id(&self.bids, *order_id) {
            Some(i) => {
                proof {
                    lemma_position_unique(self.bids@, *order_id, i as int);
                }
                Some(self.bids[i].placed.order_type)
            },
            None => match find_id(&self.asks, *order_id) {
                Some(i) => {
                    proof {
                        lemma_position_unique(self.asks@, *order_id, i as int);
                    }
                    Some(self.asks[i].placed.order_type)
                },
                None => None,
            },
        }
    }
}

} // verus!
