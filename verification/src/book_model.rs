//! The mathematical model of an order book: each side is the sequence of its
//! resting orders in priority order, and matching, placement and cancellation
//! are spec functions over those sequences.

use vstd::prelude::*;

use crate::order::{filled_by, same_order, Order};
use crate::level_info::LevelInfo;
use crate::trade::{Trade, TradeInfo};
use crate::types::{OrderId, OrderType, Price, Quantity, Side};

verus! {

/// An order resting in a book: the order as it is now (`live`) and the copy
/// taken when it was placed (`placed`).
#[derive(Debug, Clone, Copy)]
pub struct RestingOrder {
    pub live: Order,
    pub placed: Order,
}

/// The abstract state of a book. `bids` are in priority order (best price first,
/// oldest first within a price); so are `asks`.
pub struct BookView {
    pub bids: Seq<RestingOrder>,
    pub asks: Seq<RestingOrder>,
}

/// The smaller of two quantities.
pub open spec fn min_qty(a: Quantity, b: Quantity) -> Quantity {
    if a <= b { a } else { b }
}

/// Whether `incoming` is priced to trade with the opposite-side order `resting`.
pub open spec fn crosses(incoming: Order, resting: Order) -> bool {
    match incoming.side {
        Side::Buy => incoming.price >= resting.price,
        Side::Sell => incoming.price <= resting.price,
    }
}

/// The trade of `q` units between `incoming` and the opposite-side order `resting`;
/// its identifier and time are placeholders (`0`).
pub open spec fn trade_of(incoming: Order, resting: Order, q: Quantity) -> Trade {
    let bid = if incoming.side == Side::Buy { incoming } else { resting };
    let ask = if incoming.side == Side::Buy { resting } else { incoming };
    Trade {
        trade_id: 0,
        timestamp: 0,
        bid_trade: TradeInfo {
            order_id: bid.order_id,
            price: bid.price,
            quantity: q,
            user_id: bid.user_id,
        },
        ask_trade: TradeInfo {
            order_id: ask.order_id,
            price: ask.price,
            quantity: q,
            user_id: ask.user_id,
        },
    }
}

/// Matching of `incoming` against the opposite side `side`, walked in priority order.
///
/// The walk stops at the first order that `incoming` does not cross. When `skip_own`,
/// orders of the same user are skipped (no self-trade). Against any other order, the smaller of the
/// two remaining quantities trades; an order with nothing left leaves the side; the
/// walk ends once `incoming` has nothing left.
///
/// The result is: `incoming` after its fills, the side after matching, the trades in
/// the order they happened, and whether `incoming` was used up.
pub open spec fn match_against(incoming: Order, side: Seq<RestingOrder>, skip_own: bool) -> (
    Order,
    Seq<RestingOrder>,
    Seq<Trade>,
    bool,
)
    decreases side.len(),
{
    if side.len() == 0 || !crosses(incoming, side[0].live) {
        (incoming, side, Seq::empty(), false)
    } else if skip_own && side[0].live.user_id == incoming.user_id {
        let m = match_against(incoming, side.drop_first(), skip_own);
        (m.0, seq![side[0]] + m.1, m.2, m.3)
    } else {
        let head = side[0];
        let q = min_qty(incoming.remaining_quantity, head.live.remaining_quantity);
        let inc = filled_by(incoming, q);
        let live = filled_by(head.live, q);
        let t = trade_of(incoming, head.live, q);
        let kept = if live.remaining_quantity == 0 {
            Seq::<RestingOrder>::empty()
        } else {
            seq![RestingOrder { live, placed: head.placed }]
        };
        if inc.remaining_quantity == 0 {
            (inc, kept + side.drop_first(), seq![t], true)
        } else {
            let m = match_against(inc, side.drop_first(), skip_own);
            (m.0, kept + m.1, seq![t] + m.2, m.3)
        }
    }
}

/// Whether the resting order `r` goes before a new order `o` of the same side:
/// same price or better.
pub open spec fn goes_before(r: Order, o: Order) -> bool {
    match o.side {
        Side::Buy => r.price >= o.price,
        Side::Sell => r.price <= o.price,
    }
}

/// The position at which `o` joins the side `s`: after every order of the same or
/// a better price.
pub open spec fn placement(s: Seq<RestingOrder>, o: Order) -> nat
    decreases s.len(),
{
    if s.len() == 0 {
        0
    } else if goes_before(s[0].live, o) {
        1 + placement(s.drop_first(), o)
    } else {
        0
    }
}

/// The side `s` with the order `r` placed by price-time priority.
pub open spec fn place(s: Seq<RestingOrder>, r: RestingOrder) -> Seq<RestingOrder> {
    s.insert(placement(s, r.live) as int, r)
}

/// The order ID of the `i`th order of `s`.
pub open spec fn id_at(s: Seq<RestingOrder>, i: int) -> OrderId {
    s[i].live.order_id
}

/// Whether some order of `s` has ID `id`.
pub open spec fn side_has(s: Seq<RestingOrder>, id: OrderId) -> bool {
    exists|i: int| 0 <= i < s.len() && id_at(s, i) == id
}

/// The position of the order with ID `id` in `s` (meaningful when there is one).
pub open spec fn position_of(s: Seq<RestingOrder>, id: OrderId) -> int {
    choose|i: int| 0 <= i < s.len() && id_at(s, i) == id
}

/// No two orders of `s` share an ID.
pub open spec fn distinct_ids(s: Seq<RestingOrder>) -> bool {
    forall|i: int, j: int| 0 <= i < s.len() && 0 <= j < s.len() && i != j ==> id_at(s, i) != id_at(s, j)
}

/// No order of `a` shares an ID with an order of `b`.
pub open spec fn disjoint_ids(a: Seq<RestingOrder>, b: Seq<RestingOrder>) -> bool {
    forall|i: int, j: int| 0 <= i < a.len() && 0 <= j < b.len() ==> id_at(a, i) != id_at(b, j)
}

/// Every order of `s` is on side `side`.
pub open spec fn all_on(s: Seq<RestingOrder>, side: Side) -> bool {
    forall|i: int| 0 <= i < s.len() ==> (#[trigger] s[i]).live.side == side
}

/// Every order of `s` matches the copy taken when it was placed, but for its fills.
pub open spec fn copies_agree(s: Seq<RestingOrder>) -> bool {
    forall|i: int| 0 <= i < s.len() ==> same_order((#[trigger] s[i]).live, s[i].placed)
}

/// Bids are in non-increasing price order.
pub open spec fn bids_sorted(s: Seq<RestingOrder>) -> bool {
    forall|i: int, j: int| 0 <= i < j < s.len() ==> (#[trigger] s[i]).live.price >= (#[trigger] s[j]).live.price
}

/// Asks are in non-decreasing price order.
pub open spec fn asks_sorted(s: Seq<RestingOrder>) -> bool {
    forall|i: int, j: int| 0 <= i < j < s.len() ==> (#[trigger] s[i]).live.price <= (#[trigger] s[j]).live.price
}

/// No bid crosses an ask of another user.
pub open spec fn uncrossed(bids: Seq<RestingOrder>, asks: Seq<RestingOrder>) -> bool {
    forall|i: int, j: int|
        0 <= i < bids.len() && 0 <= j < asks.len() && (#[trigger] bids[i]).live.user_id
            != (#[trigger] asks[j]).live.user_id ==> bids[i].live.price < asks[j].live.price
}

/// `a` is `b` with some orders taken out and some fills applied: `f` maps each
/// order of `a`, in increasing order, to the order of `b` it came from.
pub open spec fn sub_by(a: Seq<RestingOrder>, b: Seq<RestingOrder>, f: spec_fn(int) -> int) -> bool {
    &&& forall|i: int|
        0 <= i < a.len() ==> 0 <= #[trigger] f(i) < b.len() && same_order(a[i].live, b[f(i)].live)
            && a[i].placed == b[f(i)].placed
    &&& forall|i: int, j: int| 0 <= i < j < a.len() ==> #[trigger] f(i) < #[trigger] f(j)
}

/// The sum of the remaining quantities of the orders of `s`.
pub open spec fn remaining_sum(s: Seq<RestingOrder>) -> int
    decreases s.len(),
{
    if s.len() == 0 {
        0
    } else {
        s[0].live.remaining_quantity + remaining_sum(s.drop_first())
    }
}

/// The sum of the quantities of the trades of `t`.
pub open spec fn traded_sum(t: Seq<Trade>) -> int
    decreases t.len(),
{
    if t.len() == 0 {
        0
    } else {
        t[0].bid_trade.quantity + traded_sum(t.drop_first())
    }
}

/// The price levels of `s`, walked in order: consecutive orders of one price form a
/// level whose quantity is the sum of their remaining quantities.
pub open spec fn levels(s: Seq<RestingOrder>) -> Seq<LevelInfo>
    decreases s.len(),
{
    if s.len() == 0 {
        Seq::empty()
    } else {
        let r = levels(s.drop_last());
        let o = s.last().live;
        if r.len() > 0 && r.last().price == o.price {
            r.drop_last().push(
                LevelInfo { price: o.price, quantity: (r.last().quantity + o.remaining_quantity) as Quantity },
            )
        } else {
            r.push(LevelInfo { price: o.price, quantity: o.remaining_quantity })
        }
    }
}

/// Every level quantity of `levels(s)`, and every partial sum on the way, fits a `Quantity`.
pub open spec fn levels_fit(s: Seq<RestingOrder>) -> bool
    decreases s.len(),
{
    s.len() == 0 || (levels_fit(s.drop_last()) && {
        let r = levels(s.drop_last());
        r.len() > 0 && r.last().price == s.last().live.price ==> r.last().quantity
            + s.last().live.remaining_quantity <= Quantity::MAX
    })
}

/// The quantities of the prefixes of a sequence whose levels fit, fit too.
pub proof fn lemma_levels_fit_prefix(s: Seq<RestingOrder>, k: int)
    requires
        levels_fit(s),
        0 <= k <= s.len(),
    ensures
        levels_fit(s.take(k)),
    decreases s.len() - k,
{
    if k == s.len() {
        assert(s.take(k) =~= s);
    } else {
        lemma_levels_fit_prefix(s, k + 1);
        assert(s.take(k + 1).drop_last() =~= s.take(k));
    }
}

impl BookView {
    /// The bid levels, ascending by price (the best bid last).
    pub open spec fn bid_levels(self) -> Seq<LevelInfo> {
        levels(self.bids.reverse())
    }

    /// The ask levels, ascending by price (the best ask first).
    pub open spec fn ask_levels(self) -> Seq<LevelInfo> {
        levels(self.asks)
    }

    /// Every level quantity of the book fits a `Quantity`.
    pub open spec fn depth_fits(self) -> bool {
        levels_fit(self.bids.reverse()) && levels_fit(self.asks)
    }

    /// The number of resting orders.
    pub open spec fn size(self) -> nat {
        self.bids.len() + self.asks.len()
    }

    /// Whether an order with ID `id` rests in the book.
    pub open spec fn contains(self, id: OrderId) -> bool {
        side_has(self.bids, id) || side_has(self.asks, id)
    }

    /// The type of the resting order with ID `id`, if there is one.
    pub open spec fn order_type_of(self, id: OrderId) -> Option<OrderType> {
        if side_has(self.bids, id) {
            Some(self.bids[position_of(self.bids, id)].placed.order_type)
        } else if side_has(self.asks, id) {
            Some(self.asks[position_of(self.asks, id)].placed.order_type)
        } else {
            None
        }
    }

    /// Whether an order on `side` at `price` is priced to trade with the best
    /// opposite order (whoever owns it).
    pub open spec fn can_match(self, side: Side, price: Price) -> bool {
        match side {
            Side::Buy => self.asks.len() > 0 && price >= self.asks[0].live.price,
            Side::Sell => self.bids.len() > 0 && price <= self.bids[0].live.price,
        }
    }

    /// Placing `o`: `None` when an order with its ID already rests, or when it is a
    /// fill-and-kill order that cannot trade at once. Otherwise `o` is matched against
    /// the opposite side (skipping orders of its own user when `skip_own`); what remains
    /// of it joins its own side, unless it was used up or is fill-and-kill. The trades
    /// come with the new state.
    pub open spec fn add(self, o: Order, skip_own: bool) -> Option<(BookView, Seq<Trade>)> {
        if self.contains(o.order_id) {
            None
        } else if o.order_type == OrderType::FillAndKill && !self.can_match(o.side, o.price) {
            None
        } else if o.side == Side::Buy {
            let m = match_against(o, self.asks, skip_own);
            let rests = !m.3 && o.order_type != OrderType::FillAndKill;
            let bids = if rests {
                place(self.bids, RestingOrder { live: m.0, placed: o })
            } else {
                self.bids
            };
            Some((BookView { bids, asks: m.1 }, m.2))
        } else {
            let m = match_against(o, self.bids, skip_own);
            let rests = !m.3 && o.order_type != OrderType::FillAndKill;
            let asks = if rests {
                place(self.asks, RestingOrder { live: m.0, placed: o })
            } else {
                self.asks
            };
            Some((BookView { bids: m.1, asks }, m.2))
        }
    }

    /// Cancelling the order with ID `id`: the book without it, and its copy as placed;
    /// the book unchanged and `None` when no such order rests.
    pub open spec fn cancel(self, id: OrderId) -> (BookView, Option<Order>) {
        if side_has(self.bids, id) {
            let i = position_of(self.bids, id);
            (BookView { bids: self.bids.remove(i), asks: self.asks }, Some(self.bids[i].placed))
        } else if side_has(self.asks, id) {
            let i = position_of(self.asks, id);
            (BookView { bids: self.bids, asks: self.asks.remove(i) }, Some(self.asks[i].placed))
        } else {
            (self, None)
        }
    }

    /// The invariant of a book: IDs are unique, each side holds its own orders in
    /// price priority, each order agrees with its placed copy, and no bid crosses an
    /// ask of another user.
    pub open spec fn wf(self) -> bool {
        &&& distinct_ids(self.bids)
        &&& distinct_ids(self.asks)
        &&& disjoint_ids(self.bids, self.asks)
        &&& all_on(self.bids, Side::Buy)
        &&& all_on(self.asks, Side::Sell)
        &&& copies_agree(self.bids)
        &&& copies_agree(self.asks)
        &&& bids_sorted(self.bids)
        &&& asks_sorted(self.asks)
        &&& uncrossed(self.bids, self.asks)
    }
}

// ---------------------------------------------------------------------------
// Lemmas
// ---------------------------------------------------------------------------

/// Matching changes `incoming` only by fills, and the side only by removing orders
/// and filling them, keeping the order of what stays.
pub proof fn lemma_match_sub(incoming: Order, side: Seq<RestingOrder>, skip_own: bool) -> (f: spec_fn(int) -> int)
    ensures
        sub_by(match_against(incoming, side, skip_own).1, side, f),
        same_order(match_against(incoming, side, skip_own).0, incoming),
        match_against(incoming, side, skip_own).0.remaining_quantity <= incoming.remaining_quantity,
    decreases side.len(),
{
    reveal_with_fuel(match_against, 2);
    let m = match_against(incoming, side, skip_own);
    if side.len() == 0 || !crosses(incoming, side[0].live) {
        let f = |i: int| i;
        f
    } else if skip_own && side[0].live.user_id == incoming.user_id {
        let g = lemma_match_sub(incoming, side.drop_first(), skip_own);
        let f = |i: int| if i == 0 { 0 } else { g(i - 1) + 1 };
        let inner = match_against(incoming, side.drop_first(), skip_own);
        assert(m.1 == seq![side[0]] + inner.1);
        assert forall|i: int, j: int| 0 <= i < j < m.1.len() implies #[trigger] f(i) < #[trigger] f(j) by {
            if i > 0 {
                assert(g(i - 1) < g(j - 1));
            } else {
                assert(0 <= g(j - 1));
            }
        }
        f
    } else {
        let head = side[0];
        let q = min_qty(incoming.remaining_quantity, head.live.remaining_quantity);
        let inc = filled_by(incoming, q);
        let live = filled_by(head.live, q);
        if inc.remaining_quantity == 0 {
            if live.remaining_quantity == 0 {
                let f = |i: int| i + 1;
                f
            } else {
                let f = |i: int| i;
                f
            }
        } else {
            let g = lemma_match_sub(inc, side.drop_first(), skip_own);
            let inner = match_against(inc, side.drop_first(), skip_own);
            assert(live.remaining_quantity == 0);
            assert(m.1 == Seq::<RestingOrder>::empty() + inner.1);
            assert(m.1 == inner.1);
            let f = |i: int| g(i) + 1;
            assert forall|i: int, j: int| 0 <= i < j < m.1.len() implies #[trigger] f(i) < #[trigger] f(j) by {
                assert(g(i) < g(j));
            }
            f
        }
    }
}


/// What `sub_by` keeps of the properties of the larger sequence.
pub proof fn lemma_sub_props(a: Seq<RestingOrder>, b: Seq<RestingOrder>, f: spec_fn(int) -> int)
    requires
        sub_by(a, b, f),
    ensures
        a.len() <= b.len(),
        distinct_ids(b) ==> distinct_ids(a),
        all_on(b, Side::Buy) ==> all_on(a, Side::Buy),
        all_on(b, Side::Sell) ==> all_on(a, Side::Sell),
        copies_agree(b) ==> copies_agree(a),
        bids_sorted(b) ==> bids_sorted(a),
        asks_sorted(b) ==> asks_sorted(a),
        forall|id: OrderId| side_has(a, id) ==> side_has(b, id),
{
    if distinct_ids(b) {
        assert forall|i: int, j: int| 0 <= i < a.len() && 0 <= j < a.len() && i != j implies id_at(a, i) != id_at(a, j) by {
            if i < j {
                assert(f(i) < f(j));
            } else {
                assert(f(j) < f(i));
            }
            assert(id_at(a, i) == id_at(b, f(i)));
            assert(id_at(a, j) == id_at(b, f(j)));
        }
    }
    if all_on(b, Side::Buy) {
        assert forall|i: int| 0 <= i < a.len() implies (#[trigger] a[i]).live.side == Side::Buy by {
            assert(b[f(i)].live.side == Side::Buy);
        }
    }
    if all_on(b, Side::Sell) {
        assert forall|i: int| 0 <= i < a.len() implies (#[trigger] a[i]).live.side == Side::Sell by {
            assert(b[f(i)].live.side == Side::Sell);
        }
    }
    if copies_agree(b) {
        assert forall|i: int| 0 <= i < a.len() implies same_order((#[trigger] a[i]).live, a[i].placed) by {
            assert(same_order(b[f(i)].live, b[f(i)].placed));
        }
    }
    if bids_sorted(b) {
        assert forall|i: int, j: int| 0 <= i < j < a.len() implies (#[trigger] a[i]).live.price >= (#[trigger] a[j]).live.price by {
            assert(f(i) < f(j));
            assert(b[f(i)].live.price >= b[f(j)].live.price);
        }
    }
    if asks_sorted(b) {
        assert forall|i: int, j: int| 0 <= i < j < a.len() implies (#[trigger] a[i]).live.price <= (#[trigger] a[j]).live.price by {
            assert(f(i) < f(j));
            assert(b[f(i)].live.price <= b[f(j)].live.price);
        }
    }
    assert forall|id: OrderId| side_has(a, id) implies side_has(b, id) by {
        let i = choose|i: int| 0 <= i < a.len() && id_at(a, i) == id;
        assert(id_at(b, f(i)) == id);
    }
    if a.len() > b.len() {
        lemma_sub_len(a, b, f, a.len() as int);
    }
}

/// An increasing map from the first `n` positions of `a` into `b` needs `n <= b.len()`.
proof fn lemma_sub_len(a: Seq<RestingOrder>, b: Seq<RestingOrder>, f: spec_fn(int) -> int, n: int)
    requires
        sub_by(a, b, f),
        0 < n <= a.len(),
    ensures
        f(n - 1) >= n - 1,
        n <= b.len(),
    decreases n,
{
    if n > 1 {
        lemma_sub_len(a, b, f, n - 1);
        assert(f(n - 2) < f(n - 1));
    }
    assert(0 <= f(n - 1) < b.len());
}

/// Removing the order at position `k` keeps the rest in order.
pub proof fn lemma_remove_sub(s: Seq<RestingOrder>, k: int) -> (f: spec_fn(int) -> int)
    requires
        0 <= k < s.len(),
    ensures
        sub_by(s.remove(k), s, f),
        forall|i: int| 0 <= i < s.remove(k).len() ==> s.remove(k)[i] == s[#[trigger] f(i)] && f(i) != k,
{
    let f = |i: int| if i < k { i } else { i + 1 };
    let r = s.remove(k);
    assert forall|i: int| 0 <= i < r.len() implies 0 <= #[trigger] f(i) < s.len() && same_order(r[i].live, s[f(i)].live)
        && r[i].placed == s[f(i)].placed by {
        assert(r[i] == s[f(i)]);
    }
    f
}

/// Whether `incoming` crosses a prefix of `side` and nothing after it.
pub open spec fn crossing_prefix(incoming: Order, side: Seq<RestingOrder>) -> bool {
    forall|i: int, j: int|
        0 <= i < j < side.len() && !crosses(incoming, (#[trigger] side[i]).live) ==> !crosses(
            incoming,
            (#[trigger] side[j]).live,
        )
}

/// A buy crosses a prefix of the asks, a sell a prefix of the bids.
pub proof fn lemma_crossing_prefix(incoming: Order, side: Seq<RestingOrder>)
    requires
        incoming.side == Side::Buy ==> asks_sorted(side),
        incoming.side == Side::Sell ==> bids_sorted(side),
    ensures
        crossing_prefix(incoming, side),
{
}

/// When `incoming` is not used up, no order of another user left on the side crosses it.
pub proof fn lemma_match_uncrossed(incoming: Order, side: Seq<RestingOrder>, skip_own: bool)
    requires
        crossing_prefix(incoming, side),
    ensures
        !match_against(incoming, side, skip_own).3 ==> forall|k: int|
            0 <= k < match_against(incoming, side, skip_own).1.len() && (#[trigger] match_against(incoming, side, skip_own).1[k]).live.user_id
                != incoming.user_id ==> !crosses(incoming, match_against(incoming, side, skip_own).1[k].live),
    decreases side.len(),
{
    let m = match_against(incoming, side, skip_own);
    if side.len() == 0 {
    } else if !crosses(incoming, side[0].live) {
        assert forall|k: int| 0 <= k < m.1.len() implies !crosses(incoming, (#[trigger] m.1[k]).live) by {
            if k > 0 {
                assert(!crosses(incoming, side[0].live) ==> !crosses(incoming, side[k].live));
            }
        }
    } else if skip_own && side[0].live.user_id == incoming.user_id {
        let rest = side.drop_first();
        assert(crossing_prefix(incoming, rest)) by {
            assert forall|i: int, j: int|
                0 <= i < j < rest.len() && !crosses(incoming, (#[trigger] rest[i]).live) implies !crosses(
                incoming,
                (#[trigger] rest[j]).live,
            ) by {
                assert(rest[i] == side[i + 1]);
                assert(rest[j] == side[j + 1]);
            }
        }
        lemma_match_uncrossed(incoming, rest, skip_own);
        let inner = match_against(incoming, rest, skip_own);
        assert(m.1 == seq![side[0]] + inner.1);
        if !m.3 {
            assert forall|k: int| 0 <= k < m.1.len() && (#[trigger] m.1[k]).live.user_id != incoming.user_id implies !crosses(
                incoming,
                m.1[k].live,
            ) by {
                assert(k > 0);
                assert(m.1[k] == inner.1[k - 1]);
            }
        }
    } else {
        let head = side[0];
        let q = min_qty(incoming.remaining_quantity, head.live.remaining_quantity);
        let inc = filled_by(incoming, q);
        if inc.remaining_quantity != 0 {
            let rest = side.drop_first();
            assert(crossing_prefix(inc, rest)) by {
                assert forall|i: int, j: int|
                    0 <= i < j < rest.len() && !crosses(inc, (#[trigger] rest[i]).live) implies !crosses(
                    inc,
                    (#[trigger] rest[j]).live,
                ) by {
                    assert(rest[i] == side[i + 1]);
                    assert(rest[j] == side[j + 1]);
                }
            }
            lemma_match_uncrossed(inc, rest, skip_own);
            let inner = match_against(inc, rest, skip_own);
            assert(m.1 == Seq::<RestingOrder>::empty() + inner.1);
            assert(m.1 == inner.1);
        }
    }
}

/// Facts about the placement position of `o` in `s`.
pub proof fn lemma_placement(s: Seq<RestingOrder>, o: Order)
    ensures
        placement(s, o) <= s.len(),
        forall|j: int| 0 <= j < placement(s, o) ==> goes_before((#[trigger] s[j]).live, o),
        placement(s, o) < s.len() ==> !goes_before(s[placement(s, o) as int].live, o),
    decreases s.len(),
{
    if s.len() > 0 && goes_before(s[0].live, o) {
        let rest = s.drop_first();
        lemma_placement(rest, o);
        assert forall|j: int| 0 <= j < placement(s, o) implies goes_before((#[trigger] s[j]).live, o) by {
            if j > 0 {
                assert(s[j] == rest[j - 1]);
            }
        }
        if placement(s, o) < s.len() {
            assert(s[placement(s, o) as int] == rest[placement(rest, o) as int]);
        }
    }
}

/// Placing keeps bids sorted.
pub proof fn lemma_place_bids_sorted(s: Seq<RestingOrder>, r: RestingOrder)
    requires
        bids_sorted(s),
        r.live.side == Side::Buy,
    ensures
        bids_sorted(place(s, r)),
{
    lemma_placement(s, r.live);
    let k = placement(s, r.live) as int;
    let t = place(s, r);
    assert(t.len() == s.len() + 1);
    assert forall|i: int| 0 <= i < t.len() implies #[trigger] t[i] == (if i < k { s[i] } else if i == k { r } else { s[i - 1] }) by {}
    assert forall|i: int, j: int| 0 <= i < j < t.len() implies (#[trigger] t[i]).live.price >= (#[trigger] t[j]).live.price by {
        if i < k && j == k {
            assert(goes_before(s[i].live, r.live));
        } else if i == k && j > k {
            assert(!goes_before(s[k].live, r.live));
            if j - 1 > k {
                assert(s[k].live.price >= s[j - 1].live.price);
            }
        }
    }
}

/// Placing keeps asks sorted.
pub proof fn lemma_place_asks_sorted(s: Seq<RestingOrder>, r: RestingOrder)
    requires
        asks_sorted(s),
        r.live.side == Side::Sell,
    ensures
        asks_sorted(place(s, r)),
{
    lemma_placement(s, r.live);
    let k = placement(s, r.live) as int;
    let t = place(s, r);
    assert(t.len() == s.len() + 1);
    assert forall|i: int| 0 <= i < t.len() implies #[trigger] t[i] == (if i < k { s[i] } else if i == k { r } else { s[i - 1] }) by {}
    assert forall|i: int, j: int| 0 <= i < j < t.len() implies (#[trigger] t[i]).live.price <= (#[trigger] t[j]).live.price by {
        if i < k && j == k {
            assert(goes_before(s[i].live, r.live));
        } else if i == k && j > k {
            assert(!goes_before(s[k].live, r.live));
            if j - 1 > k {
                assert(s[k].live.price <= s[j - 1].live.price);
            }
        }
    }
}


/// The orders of `place(s, r)` are those of `s` with `r` at its placement position.
pub proof fn lemma_place_props(s: Seq<RestingOrder>, r: RestingOrder, side: Side)
    ensures
        place(s, r).len() == s.len() + 1,
        placement(s, r.live) <= s.len(),
        forall|i: int|
            0 <= i < place(s, r).len() ==> #[trigger] place(s, r)[i] == (if i < placement(s, r.live) {
                s[i]
            } else if i == placement(s, r.live) {
                r
            } else {
                s[i - 1]
            }),
        distinct_ids(s) && !side_has(s, r.live.order_id) ==> distinct_ids(place(s, r)),
        all_on(s, side) && r.live.side == side ==> all_on(place(s, r), side),
        copies_agree(s) && same_order(r.live, r.placed) ==> copies_agree(place(s, r)),
        forall|id: OrderId| side_has(place(s, r), id) <==> (side_has(s, id) || id == r.live.order_id),
{
    lemma_placement(s, r.live);
    let k = placement(s, r.live) as int;
    let t = place(s, r);
    assert forall|i: int| 0 <= i < t.len() implies #[trigger] t[i] == (if i < k { s[i] } else if i == k { r } else { s[i - 1] }) by {}
    if distinct_ids(s) && !side_has(s, r.live.order_id) {
        assert forall|i: int, j: int| 0 <= i < t.len() && 0 <= j < t.len() && i != j implies id_at(t, i) != id_at(t, j) by {
            if i == k {
                let jj = if j < k { j } else { j - 1 };
                assert(id_at(s, jj) == id_at(t, j));
            } else if j == k {
                let ii = if i < k { i } else { i - 1 };
                assert(id_at(s, ii) == id_at(t, i));
            } else {
                let ii = if i < k { i } else { i - 1 };
                let jj = if j < k { j } else { j - 1 };
                assert(id_at(s, ii) == id_at(t, i));
                assert(id_at(s, jj) == id_at(t, j));
            }
        }
    }
    if all_on(s, side) && r.live.side == side {
        assert forall|i: int| 0 <= i < t.len() implies (#[trigger] t[i]).live.side == side by {
            if i < k {
                assert(s[i].live.side == side);
            } else if i > k {
                assert(s[i - 1].live.side == side);
            }
        }
    }
    if copies_agree(s) && same_order(r.live, r.placed) {
        assert forall|i: int| 0 <= i < t.len() implies same_order((#[trigger] t[i]).live, t[i].placed) by {
            if i < k {
                assert(same_order(s[i].live, s[i].placed));
            } else if i > k {
                assert(same_order(s[i - 1].live, s[i - 1].placed));
            }
        }
    }
    assert forall|id: OrderId| side_has(t, id) <==> (side_has(s, id) || id == r.live.order_id) by {
        if side_has(t, id) {
            let i = choose|i: int| 0 <= i < t.len() && id_at(t, i) == id;
            if i < k {
                assert(id_at(s, i) == id);
            } else if i > k {
                assert(id_at(s, i - 1) == id);
            }
        }
        if side_has(s, id) {
            let j = choose|j: int| 0 <= j < s.len() && id_at(s, j) == id;
            if j < k {
                assert(id_at(t, j) == id);
            } else {
                assert(id_at(t, j + 1) == id);
            }
        }
        if id == r.live.order_id {
            assert(id_at(t, k) == id);
        }
    }
}

/// Placing an order keeps a book well formed: IDs stay unique, each side stays in price
/// priority, and no bid crosses an ask of another user. Nothing but the new order joins.
pub proof fn law_add_keeps_wf(b: BookView, o: Order, skip_own: bool)
    requires
        b.wf(),
        b.add(o, skip_own) is Some,
    ensures
        b.add(o, skip_own).unwrap().0.wf(),
        forall|id: OrderId| #[trigger] b.add(o, skip_own).unwrap().0.contains(id) ==> b.contains(id) || id == o.order_id,
{
    let nb = b.add(o, skip_own).unwrap().0;
    if o.side == Side::Buy {
        let m = match_against(o, b.asks, skip_own);
        let f = lemma_match_sub(o, b.asks, skip_own);
        lemma_sub_props(m.1, b.asks, f);
        lemma_crossing_prefix(o, b.asks);
        lemma_match_uncrossed(o, b.asks, skip_own);
        let rests = !m.3 && o.order_type != OrderType::FillAndKill;
        let r = RestingOrder { live: m.0, placed: o };
        lemma_place_props(b.bids, r, Side::Buy);
        if rests {
            lemma_place_bids_sorted(b.bids, r);
        }
        let k = placement(b.bids, r.live) as int;
        assert(nb.asks == m.1);
        assert forall|i: int, j: int| 0 <= i < nb.bids.len() && 0 <= j < nb.asks.len() implies id_at(nb.bids, i) != id_at(nb.asks, j) by {
            assert(id_at(nb.asks, j) == id_at(b.asks, f(j)));
            if rests {
                if i < k {
                    assert(id_at(nb.bids, i) == id_at(b.bids, i));
                } else if i > k {
                    assert(id_at(nb.bids, i) == id_at(b.bids, i - 1));
                } else {
                    assert(id_at(nb.bids, i) == o.order_id);
                    assert(side_has(b.asks, id_at(b.asks, f(j))));
                }
            }
        }
        assert forall|i: int, j: int|
            0 <= i < nb.bids.len() && 0 <= j < nb.asks.len() && (#[trigger] nb.bids[i]).live.user_id
                != (#[trigger] nb.asks[j]).live.user_id implies nb.bids[i].live.price < nb.asks[j].live.price by {
            let a = b.asks[f(j)];
            assert(same_order(nb.asks[j].live, a.live));
            if rests {
                if i < k {
                    assert(nb.bids[i] == b.bids[i]);
                    assert(b.bids[i].live.price < a.live.price);
                } else if i > k {
                    assert(nb.bids[i] == b.bids[i - 1]);
                    assert(b.bids[i - 1].live.price < a.live.price);
                } else {
                    assert(nb.bids[i] == r);
                    assert(!crosses(o, nb.asks[j].live));
                }
            } else {
                assert(b.bids[i].live.price < a.live.price);
            }
        }
        assert forall|id: OrderId| #[trigger] nb.contains(id) implies b.contains(id) || id == o.order_id by {}
    } else {
        let m = match_against(o, b.bids, skip_own);
        let f = lemma_match_sub(o, b.bids, skip_own);
        lemma_sub_props(m.1, b.bids, f);
        lemma_crossing_prefix(o, b.bids);
        lemma_match_uncrossed(o, b.bids, skip_own);
        let rests = !m.3 && o.order_type != OrderType::FillAndKill;
        let r = RestingOrder { live: m.0, placed: o };
        lemma_place_props(b.asks, r, Side::Sell);
        if rests {
            lemma_place_asks_sorted(b.asks, r);
        }
        let k = placement(b.asks, r.live) as int;
        assert(nb.bids == m.1);
        assert forall|i: int, j: int| 0 <= i < nb.bids.len() && 0 <= j < nb.asks.len() implies id_at(nb.bids, i) != id_at(nb.asks, j) by {
            assert(id_at(nb.bids, i) == id_at(b.bids, f(i)));
            if rests {
                if j < k {
                    assert(id_at(nb.asks, j) == id_at(b.asks, j));
                } else if j > k {
                    assert(id_at(nb.asks, j) == id_at(b.asks, j - 1));
                } else {
                    assert(id_at(nb.asks, j) == o.order_id);
                    assert(side_has(b.bids, id_at(b.bids, f(i))));
                }
            }
        }
        assert forall|i: int, j: int|
            0 <= i < nb.bids.len() && 0 <= j < nb.asks.len() && (#[trigger] nb.bids[i]).live.user_id
                != (#[trigger] nb.asks[j]).live.user_id implies nb.bids[i].live.price < nb.asks[j].live.price by {
            let bb = b.bids[f(i)];
            assert(same_order(nb.bids[i].live, bb.live));
            if rests {
                if j < k {
                    assert(nb.asks[j] == b.asks[j]);
                    assert(bb.live.price < b.asks[j].live.price);
                } else if j > k {
                    assert(nb.asks[j] == b.asks[j - 1]);
                    assert(bb.live.price < b.asks[j - 1].live.price);
                } else {
                    assert(nb.asks[j] == r);
                    assert(!crosses(o, nb.bids[i].live));
                }
            } else {
                assert(bb.live.price < b.asks[j].live.price);
            }
        }
        assert forall|id: OrderId| #[trigger] nb.contains(id) implies b.contains(id) || id == o.order_id by {}
    }
}

/// Cancelling an order keeps a book well formed and takes exactly that order out.
pub proof fn law_cancel_keeps_wf(b: BookView, id: OrderId)
    requires
        b.wf(),
    ensures
        b.cancel(id).0.wf(),
        b.cancel(id).1 is Some <==> b.contains(id),
        !b.cancel(id).0.contains(id),
        b.contains(id) ==> b.cancel(id).0.size() + 1 == b.size(),
        forall|x: OrderId| x != id ==> (#[trigger] b.cancel(id).0.contains(x) <==> b.contains(x)),
        b.cancel(id).1 matches Some(o) ==> o.order_id == id,
{
    let nb = b.cancel(id).0;
    if side_has(b.bids, id) {
        let i = position_of(b.bids, id);
        let f = lemma_remove_sub(b.bids, i);
        lemma_sub_props(nb.bids, b.bids, f);
        assert(disjoint_ids(nb.bids, nb.asks)) by {
            assert forall|p: int, q: int| 0 <= p < nb.bids.len() && 0 <= q < nb.asks.len() implies id_at(nb.bids, p) != id_at(nb.asks, q) by {
                assert(id_at(nb.bids, p) == id_at(b.bids, f(p)));
            }
        }
        assert(uncrossed(nb.bids, nb.asks)) by {
            assert forall|p: int, q: int|
                0 <= p < nb.bids.len() && 0 <= q < nb.asks.len() && (#[trigger] nb.bids[p]).live.user_id
                    != (#[trigger] nb.asks[q]).live.user_id implies nb.bids[p].live.price < nb.asks[q].live.price by {
                assert(nb.bids[p] == b.bids[f(p)]);
            }
        }
        assert(!side_has(nb.bids, id)) by {
            if side_has(nb.bids, id) {
                let p = choose|p: int| 0 <= p < nb.bids.len() && id_at(nb.bids, p) == id;
                assert(id_at(b.bids, f(p)) == id);
                assert(f(p) != i);
            }
        }
        assert(!side_has(nb.asks, id)) by {
            if side_has(nb.asks, id) {
                let q = choose|q: int| 0 <= q < nb.asks.len() && id_at(nb.asks, q) == id;
                assert(id_at(b.bids, i) == id_at(b.asks, q));
            }
        }
        assert forall|x: OrderId| x != id implies (#[trigger] nb.contains(x) <==> b.contains(x)) by {
            if side_has(b.bids, x) {
                let p = choose|p: int| 0 <= p < b.bids.len() && id_at(b.bids, p) == x;
                assert(p != i);
                if p < i {
                    assert(id_at(nb.bids, p) == x);
                } else {
                    assert(id_at(nb.bids, p - 1) == x);
                }
            }
        }
        assert(b.bids[i].placed.order_id == id) by {
            assert(same_order(b.bids[i].live, b.bids[i].placed));
        }
    } else if side_has(b.asks, id) {
        let i = position_of(b.asks, id);
        let f = lemma_remove_sub(b.asks, i);
        lemma_sub_props(nb.asks, b.asks, f);
        assert(disjoint_ids(nb.bids, nb.asks)) by {
            assert forall|p: int, q: int| 0 <= p < nb.bids.len() && 0 <= q < nb.asks.len() implies id_at(nb.bids, p) != id_at(nb.asks, q) by {
                assert(id_at(nb.asks, q) == id_at(b.asks, f(q)));
            }
        }
        assert(uncrossed(nb.bids, nb.asks)) by {
            assert forall|p: int, q: int|
                0 <= p < nb.bids.len() && 0 <= q < nb.asks.len() && (#[trigger] nb.bids[p]).live.user_id
                    != (#[trigger] nb.asks[q]).live.user_id implies nb.bids[p].live.price < nb.asks[q].live.price by {
                assert(nb.asks[q] == b.asks[f(q)]);
            }
        }
        assert(!side_has(nb.asks, id)) by {
            if side_has(nb.asks, id) {
                let p = choose|p: int| 0 <= p < nb.asks.len() && id_at(nb.asks, p) == id;
                assert(id_at(b.asks, f(p)) == id);
                assert(f(p) != i);
            }
        }
        assert forall|x: OrderId| x != id implies (#[trigger] nb.contains(x) <==> b.contains(x)) by {
            if side_has(b.asks, x) {
                let p = choose|p: int| 0 <= p < b.asks.len() && id_at(b.asks, p) == x;
                assert(p != i);
                if p < i {
                    assert(id_at(nb.asks, p) == x);
                } else {
                    assert(id_at(nb.asks, p - 1) == x);
                }
            }
        }
        assert(b.asks[i].placed.order_id == id) by {
            assert(same_order(b.asks[i].live, b.asks[i].placed));
        }
    }
}


// ---------------------------------------------------------------------------
// Laws
// ---------------------------------------------------------------------------

/// Matching conserves quantity: what `incoming` lost is the total quantity of the
/// trades; and when own orders are skipped, each trade is with an order of another user.
pub proof fn law_match_conserves_quantity(incoming: Order, side: Seq<RestingOrder>, skip_own: bool)
    ensures
        traded_sum(match_against(incoming, side, skip_own).2) + match_against(incoming, side, skip_own).0.remaining_quantity
            == incoming.remaining_quantity,
        skip_own ==> forall|i: int|
            0 <= i < match_against(incoming, side, skip_own).2.len() ==> (#[trigger] match_against(incoming, side, skip_own).2[i]).bid_trade.user_id
                != match_against(incoming, side, skip_own).2[i].ask_trade.user_id,
        forall|i: int|
            0 <= i < match_against(incoming, side, skip_own).2.len() ==> (#[trigger] match_against(incoming, side, skip_own).2[i]).bid_trade.quantity
                == match_against(incoming, side, skip_own).2[i].ask_trade.quantity,
    decreases side.len(),
{
    let m = match_against(incoming, side, skip_own);
    if side.len() == 0 || !crosses(incoming, side[0].live) {
    } else if skip_own && side[0].live.user_id == incoming.user_id {
        law_match_conserves_quantity(incoming, side.drop_first(), skip_own);
    } else {
        let head = side[0];
        let q = min_qty(incoming.remaining_quantity, head.live.remaining_quantity);
        let inc = filled_by(incoming, q);
        let t = trade_of(incoming, head.live, q);
        if inc.remaining_quantity == 0 {
            assert(m.2 == seq![t]);
            assert(traded_sum(m.2) == q + traded_sum(m.2.drop_first()));
            assert(m.2.drop_first().len() == 0);
        } else {
            law_match_conserves_quantity(inc, side.drop_first(), skip_own);
            let inner = match_against(inc, side.drop_first(), skip_own);
            assert(m.2 == seq![t] + inner.2);
            assert(m.2.drop_first() =~= inner.2);
            assert forall|i: int| 0 <= i < m.2.len() implies (skip_own ==> (#[trigger] m.2[i]).bid_trade.user_id
                != m.2[i].ask_trade.user_id) && m.2[i].bid_trade.quantity == m.2[i].ask_trade.quantity by {
                if i > 0 {
                    assert(m.2[i] == inner.2[i - 1]);
                }
            }
        }
    }
}

/// The remaining quantities of two sequences put end to end add up.
proof fn lemma_remaining_sum_concat(a: Seq<RestingOrder>, b: Seq<RestingOrder>)
    ensures
        remaining_sum(a + b) == remaining_sum(a) + remaining_sum(b),
    decreases a.len(),
{
    if a.len() > 0 {
        lemma_remaining_sum_concat(a.drop_first(), b);
        assert((a + b).drop_first() =~= a.drop_first() + b);
        assert((a + b)[0] == a[0]);
    } else {
        assert(a + b =~= b);
    }
}

/// Matching takes from the resting side exactly what it trades: the remaining quantity
/// that the opposite side loses equals the total quantity of the trades, as does what
/// the incoming order loses; so every traded unit is taken from a resting order.
pub proof fn law_match_takes_from_side(incoming: Order, side: Seq<RestingOrder>, skip_own: bool)
    ensures
        remaining_sum(side) - remaining_sum(match_against(incoming, side, skip_own).1) == traded_sum(
            match_against(incoming, side, skip_own).2,
        ),
        incoming.remaining_quantity - match_against(incoming, side, skip_own).0.remaining_quantity == traded_sum(
            match_against(incoming, side, skip_own).2,
        ),
    decreases side.len(),
{
    law_match_conserves_quantity(incoming, side, skip_own);
    let m = match_against(incoming, side, skip_own);
    if side.len() == 0 || !crosses(incoming, side[0].live) {
    } else if skip_own && side[0].live.user_id == incoming.user_id {
        let rest = side.drop_first();
        law_match_takes_from_side(incoming, rest, skip_own);
        let inner = match_against(incoming, rest, skip_own);
        assert(m.1 == seq![side[0]] + inner.1);
        lemma_remaining_sum_concat(seq![side[0]], inner.1);
        assert(seq![side[0]].drop_first() =~= Seq::<RestingOrder>::empty());
        assert(remaining_sum(seq![side[0]].drop_first()) == 0);
        assert(remaining_sum(side) == side[0].live.remaining_quantity + remaining_sum(rest));
    } else {
        let rest = side.drop_first();
        let head = side[0];
        let q = min_qty(incoming.remaining_quantity, head.live.remaining_quantity);
        let inc = filled_by(incoming, q);
        let live = filled_by(head.live, q);
        let t = trade_of(incoming, head.live, q);
        let kept = if live.remaining_quantity == 0 {
            Seq::<RestingOrder>::empty()
        } else {
            seq![RestingOrder { live, placed: head.placed }]
        };
        assert(q <= head.live.remaining_quantity);
        assert(remaining_sum(kept) == head.live.remaining_quantity - q) by {
            if live.remaining_quantity != 0 {
                assert(kept.drop_first() =~= Seq::<RestingOrder>::empty());
                assert(remaining_sum(kept.drop_first()) == 0);
                assert(kept[0].live == live);
            } else {
                assert(remaining_sum(kept) == 0);
            }
        }
        if inc.remaining_quantity == 0 {
            assert(m.1 == kept + rest);
            lemma_remaining_sum_concat(kept, rest);
            assert(m.2 == seq![t]);
            assert(seq![t].drop_first() =~= Seq::<Trade>::empty());
            assert(traded_sum(seq![t].drop_first()) == 0);
            assert(remaining_sum(side) == head.live.remaining_quantity + remaining_sum(rest));
        } else {
            assert(remaining_sum(side) == head.live.remaining_quantity + remaining_sum(rest));
            law_match_takes_from_side(inc, rest, skip_own);
            let inner = match_against(inc, rest, skip_own);
            assert(m.1 == kept + inner.1);
            lemma_remaining_sum_concat(kept, inner.1);
            assert(m.2 == seq![t] + inner.2);
            assert((seq![t] + inner.2).drop_first() =~= inner.2);
        }
    }
}

/// Placing an order takes from the opposite side of the book exactly what it trades:
/// for a buy, the asks lose in remaining quantity the total quantity of the trades; for
/// a sell, the bids do.
pub proof fn law_add_takes_from_book(b: BookView, o: Order, skip_own: bool)
    requires
        b.add(o, skip_own) is Some,
    ensures
        o.side == Side::Buy ==> remaining_sum(b.asks) - remaining_sum(b.add(o, skip_own).unwrap().0.asks)
            == traded_sum(b.add(o, skip_own).unwrap().1),
        o.side == Side::Sell ==> remaining_sum(b.bids) - remaining_sum(b.add(o, skip_own).unwrap().0.bids)
            == traded_sum(b.add(o, skip_own).unwrap().1),
{
    if o.side == Side::Buy {
        law_match_takes_from_side(o, b.asks, skip_own);
    } else {
        law_match_takes_from_side(o, b.bids, skip_own);
    }
}

/// Trades happen only where the bid's price reaches the ask's, between `incoming` and
/// orders of the opposite side, each for a positive quantity when `incoming` and the
/// orders of the side had some left.
pub proof fn law_trades_cross(incoming: Order, side: Seq<RestingOrder>, skip_own: bool)
    requires
        forall|i: int| 0 <= i < side.len() ==> (#[trigger] side[i]).live.remaining_quantity > 0,
    ensures
        forall|i: int|
            0 <= i < match_against(incoming, side, skip_own).2.len() ==> (#[trigger] match_against(incoming, side, skip_own).2[i]).bid_trade.price
                >= match_against(incoming, side, skip_own).2[i].ask_trade.price,
        forall|i: int|
            0 <= i < match_against(incoming, side, skip_own).2.len() ==> (incoming.side == Side::Buy ==> (
            #[trigger] match_against(incoming, side, skip_own).2[i]).bid_trade.order_id == incoming.order_id) && (incoming.side
                == Side::Sell ==> match_against(incoming, side, skip_own).2[i].ask_trade.order_id == incoming.order_id),
        incoming.remaining_quantity > 0 ==> forall|i: int|
            0 <= i < match_against(incoming, side, skip_own).2.len() ==> (#[trigger] match_against(incoming, side, skip_own).2[i]).bid_trade.quantity
                > 0,
    decreases side.len(),
{
    let m = match_against(incoming, side, skip_own);
    let rest = side.drop_first();
    if side.len() > 0 {
        assert forall|i: int| 0 <= i < rest.len() implies (#[trigger] rest[i]).live.remaining_quantity > 0 by {
            assert(rest[i] == side[i + 1]);
        }
    }
    if side.len() == 0 || !crosses(incoming, side[0].live) {
    } else if skip_own && side[0].live.user_id == incoming.user_id {
        law_trades_cross(incoming, rest, skip_own);
        assert(m.2 == match_against(incoming, rest, skip_own).2);
    } else {
        let head = side[0];
        let q = min_qty(incoming.remaining_quantity, head.live.remaining_quantity);
        let inc = filled_by(incoming, q);
        let t = trade_of(incoming, head.live, q);
        assert(t.bid_trade.price >= t.ask_trade.price);
        if inc.remaining_quantity == 0 {
            assert(m.2 == seq![t]);
            assert forall|i: int| 0 <= i < m.2.len() implies (#[trigger] m.2[i]) == t by {}
        } else {
            law_trades_cross(inc, rest, skip_own);
            let inner = match_against(inc, side.drop_first(), skip_own);
            assert(m.2 == seq![t] + inner.2);
            assert forall|i: int| 0 <= i < m.2.len() implies (#[trigger] m.2[i]).bid_trade.price >= m.2[i].ask_trade.price
                && (incoming.side == Side::Buy ==> m.2[i].bid_trade.order_id == incoming.order_id) && (incoming.side
                == Side::Sell ==> m.2[i].ask_trade.order_id == incoming.order_id) && (incoming.remaining_quantity > 0
                ==> m.2[i].bid_trade.quantity > 0) by {
                if i > 0 {
                    assert(m.2[i] == inner.2[i - 1]);
                }
            }
        }
    }
}

/// Every order of `s` has some quantity left.
pub open spec fn all_positive(s: Seq<RestingOrder>) -> bool {
    forall|i: int| 0 <= i < s.len() ==> (#[trigger] s[i]).live.remaining_quantity > 0
}

/// What matching leaves: when own orders are skipped, every order of the incoming
/// order's user stays on the side untouched; when every order of the side had some
/// quantity left, so does every order that stays; and an incoming order that had some
/// quantity and is not used up still has some.
pub proof fn law_match_leaves(incoming: Order, side: Seq<RestingOrder>, skip_own: bool)
    ensures
        skip_own ==> forall|i: int|
            0 <= i < side.len() && (#[trigger] side[i]).live.user_id == incoming.user_id
                ==> match_against(incoming, side, skip_own).1.contains(side[i]),
        all_positive(side) ==> all_positive(match_against(incoming, side, skip_own).1),
        incoming.remaining_quantity > 0 && !match_against(incoming, side, skip_own).3
            ==> match_against(incoming, side, skip_own).0.remaining_quantity > 0,
    decreases side.len(),
{
    let m = match_against(incoming, side, skip_own);
    let rest = side.drop_first();
    if side.len() > 0 {
        assert forall|i: int| 0 < i < side.len() implies side[i] == rest[i - 1] by {}
        if all_positive(side) {
            assert forall|i: int| 0 <= i < rest.len() implies (#[trigger] rest[i]).live.remaining_quantity > 0 by {
                assert(rest[i] == side[i + 1]);
            }
        }
    }
    if side.len() == 0 || !crosses(incoming, side[0].live) {
        if skip_own {
            assert forall|i: int| 0 <= i < side.len() && (#[trigger] side[i]).live.user_id == incoming.user_id
                implies m.1.contains(side[i]) by {
                assert(m.1[i] == side[i]);
            }
        }
    } else if skip_own && side[0].live.user_id == incoming.user_id {
        law_match_leaves(incoming, rest, skip_own);
        let inner = match_against(incoming, rest, skip_own);
        assert(m.1 == seq![side[0]] + inner.1);
        assert forall|i: int| 0 <= i < side.len() && (#[trigger] side[i]).live.user_id == incoming.user_id
            implies m.1.contains(side[i]) by {
            if i == 0 {
                assert(m.1[0] == side[0]);
            } else {
                let j = choose|j: int| 0 <= j < inner.1.len() && inner.1[j] == rest[i - 1];
                assert(m.1[j + 1] == side[i]);
            }
        }
        if all_positive(side) {
            assert forall|k: int| 0 <= k < m.1.len() implies (#[trigger] m.1[k]).live.remaining_quantity > 0 by {
                if k > 0 {
                    assert(m.1[k] == inner.1[k - 1]);
                }
            }
        }
    } else {
        let head = side[0];
        let q = min_qty(incoming.remaining_quantity, head.live.remaining_quantity);
        let inc = filled_by(incoming, q);
        let live = filled_by(head.live, q);
        let kept = if live.remaining_quantity == 0 {
            Seq::<RestingOrder>::empty()
        } else {
            seq![RestingOrder { live, placed: head.placed }]
        };
        if inc.remaining_quantity == 0 {
            assert(m.1 == kept + rest);
            if skip_own {
                assert forall|i: int| 0 <= i < side.len() && (#[trigger] side[i]).live.user_id == incoming.user_id
                    implies m.1.contains(side[i]) by {
                    assert(i > 0);
                    assert(m.1[kept.len() + i - 1] == side[i]);
                }
            }
            if all_positive(side) {
                assert forall|k: int| 0 <= k < m.1.len() implies (#[trigger] m.1[k]).live.remaining_quantity > 0 by {
                    if k >= kept.len() {
                        assert(m.1[k] == rest[k - kept.len()]);
                    }
                }
            }
        } else {
            law_match_leaves(inc, rest, skip_own);
            let inner = match_against(inc, rest, skip_own);
            assert(m.1 == kept + inner.1);
            assert(kept.len() == 0);
            assert(m.1 =~= inner.1);
            if skip_own {
                assert forall|i: int| 0 <= i < side.len() && (#[trigger] side[i]).live.user_id == incoming.user_id
                    implies m.1.contains(side[i]) by {
                    assert(i > 0);
                    assert(rest[i - 1].live.user_id == inc.user_id);
                }
            }
        }
    }
}

/// Placing an order with some quantity into a book whose orders all have some quantity
/// left keeps every resting order with some quantity left.
pub proof fn law_add_keeps_quantities_positive(b: BookView, o: Order, skip_own: bool)
    requires
        all_positive(b.bids),
        all_positive(b.asks),
        o.remaining_quantity > 0,
        b.add(o, skip_own) is Some,
    ensures
        all_positive(b.add(o, skip_own).unwrap().0.bids),
        all_positive(b.add(o, skip_own).unwrap().0.asks),
{
    let nb = b.add(o, skip_own).unwrap().0;
    if o.side == Side::Buy {
        let m = match_against(o, b.asks, skip_own);
        law_match_leaves(o, b.asks, skip_own);
        let r = RestingOrder { live: m.0, placed: o };
        lemma_place_props(b.bids, r, Side::Buy);
        if !m.3 && o.order_type != OrderType::FillAndKill {
            let k = placement(b.bids, r.live) as int;
            assert forall|i: int| 0 <= i < nb.bids.len() implies (#[trigger] nb.bids[i]).live.remaining_quantity > 0 by {
                if i < k {
                    assert(nb.bids[i] == b.bids[i]);
                } else if i > k {
                    assert(nb.bids[i] == b.bids[i - 1]);
                }
            }
        }
    } else {
        let m = match_against(o, b.bids, skip_own);
        law_match_leaves(o, b.bids, skip_own);
        let r = RestingOrder { live: m.0, placed: o };
        lemma_place_props(b.asks, r, Side::Sell);
        if !m.3 && o.order_type != OrderType::FillAndKill {
            let k = placement(b.asks, r.live) as int;
            assert forall|i: int| 0 <= i < nb.asks.len() implies (#[trigger] nb.asks[i]).live.remaining_quantity > 0 by {
                if i < k {
                    assert(nb.asks[i] == b.asks[i]);
                } else if i > k {
                    assert(nb.asks[i] == b.asks[i - 1]);
                }
            }
        }
    }
}

/// Matching that makes no trade changes nothing: the incoming order and the opposite
/// side stay as they were.
pub proof fn lemma_match_no_trades(incoming: Order, side: Seq<RestingOrder>, skip_own: bool)
    requires
        match_against(incoming, side, skip_own).2.len() == 0,
    ensures
        match_against(incoming, side, skip_own).0 == incoming,
        match_against(incoming, side, skip_own).1 == side,
        !match_against(incoming, side, skip_own).3,
    decreases side.len(),
{
    let m = match_against(incoming, side, skip_own);
    if side.len() == 0 || !crosses(incoming, side[0].live) {
    } else if skip_own && side[0].live.user_id == incoming.user_id {
        let inner = match_against(incoming, side.drop_first(), skip_own);
        assert(m.2 == inner.2);
        lemma_match_no_trades(incoming, side.drop_first(), skip_own);
        assert(seq![side[0]] + side.drop_first() =~= side);
    } else {
        assert(m.2.len() > 0);
    }
}

/// Placing an order that rests without trading, then cancelling it, gives back the book
/// as it was, and the cancelled order as it was placed.
pub proof fn law_add_then_cancel(b: BookView, o: Order, skip_own: bool)
    requires
        b.wf(),
        b.add(o, skip_own) matches Some((nb, t)) && t.len() == 0 && nb.contains(o.order_id),
    ensures
        b.add(o, skip_own).unwrap().0.cancel(o.order_id) == (b, Some(o)),
{
    let nb = b.add(o, skip_own).unwrap().0;
    law_add_keeps_wf(b, o, skip_own);
    if o.side == Side::Buy {
        let m = match_against(o, b.asks, skip_own);
        lemma_match_no_trades(o, b.asks, skip_own);
        let rests = !m.3 && o.order_type != OrderType::FillAndKill;
        if !rests {
            assert(nb.bids == b.bids);
            assert(!side_has(nb.asks, o.order_id));
            assert(false);
        }
        let r = RestingOrder { live: o, placed: o };
        lemma_place_props(b.bids, r, Side::Buy);
        let k = placement(b.bids, o) as int;
        assert(id_at(nb.bids, k) == o.order_id);
        assert(side_has(nb.bids, o.order_id));
        assert(position_of(nb.bids, o.order_id) == k) by {
            let j = position_of(nb.bids, o.order_id);
            assert(id_at(nb.bids, j) == o.order_id);
        }
        assert(nb.bids.remove(k) =~= b.bids);
    } else {
        let m = match_against(o, b.bids, skip_own);
        lemma_match_no_trades(o, b.bids, skip_own);
        let rests = !m.3 && o.order_type != OrderType::FillAndKill;
        if !rests {
            assert(nb.asks == b.asks);
            assert(!side_has(nb.bids, o.order_id));
            assert(false);
        }
        let r = RestingOrder { live: o, placed: o };
        lemma_place_props(b.asks, r, Side::Sell);
        let k = placement(b.asks, o) as int;
        assert(id_at(nb.asks, k) == o.order_id);
        assert(!side_has(nb.bids, o.order_id)) by {
            if side_has(nb.bids, o.order_id) {
                let j = choose|j: int| 0 <= j < nb.bids.len() && id_at(nb.bids, j) == o.order_id;
                assert(id_at(nb.bids, j) != id_at(nb.asks, k));
            }
        }
        assert(position_of(nb.asks, o.order_id) == k) by {
            let j = position_of(nb.asks, o.order_id);
            assert(id_at(nb.asks, j) == o.order_id);
        }
        assert(nb.asks.remove(k) =~= b.asks);
    }
}

/// A fill-and-kill order never rests: whatever the book does with it, its ID is not
/// in the book afterwards (what it could not trade at once is dropped).
pub proof fn law_fill_and_kill_never_rests(b: BookView, o: Order, skip_own: bool)
    requires
        b.wf(),
        o.order_type == OrderType::FillAndKill,
        b.add(o, skip_own) is Some,
    ensures
        !b.add(o, skip_own).unwrap().0.contains(o.order_id),
{
    let nb = b.add(o, skip_own).unwrap().0;
    if o.side == Side::Buy {
        let f = lemma_match_sub(o, b.asks, skip_own);
        lemma_sub_props(match_against(o, b.asks, skip_own).1, b.asks, f);
        assert(nb.bids == b.bids);
    } else {
        let f = lemma_match_sub(o, b.bids, skip_own);
        lemma_sub_props(match_against(o, b.bids, skip_own).1, b.bids, f);
        assert(nb.asks == b.asks);
    }
}

/// Time priority: when an order joins its (sorted) side, every order ahead of it has the
/// same or a better price and every order behind it a strictly worse one; so among orders
/// of one price, the older stay ahead.
pub proof fn law_place_time_priority(s: Seq<RestingOrder>, r: RestingOrder)
    requires
        (r.live.side == Side::Buy && bids_sorted(s)) || (r.live.side == Side::Sell && asks_sorted(s)),
    ensures
        ({
            let t = place(s, r);
            let k = placement(s, r.live) as int;
            &&& 0 <= k < t.len()
            &&& t[k] == r
            &&& forall|i: int| 0 <= i < k ==> goes_before((#[trigger] t[i]).live, r.live)
            &&& forall|i: int| k < i < t.len() ==> !goes_before((#[trigger] t[i]).live, r.live)
        }),
{
    lemma_placement(s, r.live);
    lemma_place_props(s, r, r.live.side);
    let k = placement(s, r.live) as int;
    let t = place(s, r);
    assert forall|i: int| k < i < t.len() implies !goes_before((#[trigger] t[i]).live, r.live) by {
        assert(t[i] == s[i - 1]);
        assert(!goes_before(s[k].live, r.live));
        if i - 1 > k {
            if r.live.side == Side::Buy {
                assert(s[k].live.price >= s[i - 1].live.price);
            } else {
                assert(s[k].live.price <= s[i - 1].live.price);
            }
        }
    }
}

/// The last level of the levels of a non-empty sequence has the price of its last order.
proof fn lemma_levels_last(s: Seq<RestingOrder>)
    requires
        s.len() > 0,
    ensures
        levels(s).len() > 0,
        levels(s).last().price == s.last().live.price,
        levels(s).len() <= s.len(),
    decreases s.len(),
{
    if s.len() > 1 {
        lemma_levels_last(s.drop_last());
    } else {
        assert(levels(s.drop_last()).len() == 0);
    }
}

/// The levels of a sequence sorted by non-decreasing price are strictly ascending.
pub proof fn lemma_levels_ascending(s: Seq<RestingOrder>)
    requires
        asks_sorted(s),
    ensures
        forall|i: int, j: int| 0 <= i < j < levels(s).len() ==> (#[trigger] levels(s)[i]).price < (#[trigger] levels(s)[j]).price,
    decreases s.len(),
{
    if s.len() > 0 {
        let p = s.drop_last();
        assert(asks_sorted(p)) by {
            assert forall|i: int, j: int| 0 <= i < j < p.len() implies (#[trigger] p[i]).live.price <= (#[trigger] p[j]).live.price by {
                assert(p[i] == s[i] && p[j] == s[j]);
            }
        }
        lemma_levels_ascending(p);
        let r = levels(p);
        let l = levels(s);
        if r.len() > 0 {
            lemma_levels_last(p);
            assert(s[p.len() - 1] == p.last());
            assert(p.last().live.price <= s.last().live.price);
        }
        assert forall|i: int, j: int| 0 <= i < j < l.len() implies (#[trigger] l[i]).price < (#[trigger] l[j]).price by {
            if r.len() > 0 && r.last().price == s.last().live.price {
                assert(l[i].price == r[i].price);
                assert(l[j].price == r[j].price);
            } else {
                if j < r.len() {
                    assert(l[i] == r[i] && l[j] == r[j]);
                } else {
                    assert(l[i] == r[i]);
                    if r.len() > 0 {
                        assert(r[i].price <= r.last().price);
                    }
                }
            }
        }
    }
}

/// A depth snapshot lists both sides ascending by price, one level per price: the best
/// bid is the last bid level, the best ask the first ask level.
pub proof fn law_depth_ascending(b: BookView)
    requires
        b.wf(),
    ensures
        forall|i: int, j: int|
            0 <= i < j < b.bid_levels().len() ==> (#[trigger] b.bid_levels()[i]).price < (#[trigger] b.bid_levels()[j]).price,
        forall|i: int, j: int|
            0 <= i < j < b.ask_levels().len() ==> (#[trigger] b.ask_levels()[i]).price < (#[trigger] b.ask_levels()[j]).price,
{
    let rb = b.bids.reverse();
    assert(asks_sorted(rb)) by {
        assert forall|i: int, j: int| 0 <= i < j < rb.len() implies (#[trigger] rb[i]).live.price <= (#[trigger] rb[j]).live.price by {
            assert(rb[i] == b.bids[b.bids.len() - 1 - i]);
            assert(rb[j] == b.bids[b.bids.len() - 1 - j]);
        }
    }
    lemma_levels_ascending(rb);
    lemma_levels_ascending(b.asks);
}

/// The total remaining quantity of the orders of `s` at price `p`.
pub open spec fn price_total(s: Seq<RestingOrder>, p: Price) -> int
    decreases s.len(),
{
    if s.len() == 0 {
        0
    } else {
        (if s[0].live.price == p {
            s[0].live.remaining_quantity as int
        } else {
            0
        }) + price_total(s.drop_first(), p)
    }
}

/// The total at a price, taken from the back.
proof fn lemma_price_total_last(s: Seq<RestingOrder>, p: Price)
    requires
        s.len() > 0,
    ensures
        price_total(s, p) == price_total(s.drop_last(), p) + if s.last().live.price == p {
            s.last().live.remaining_quantity as int
        } else {
            0
        },
    decreases s.len(),
{
    if s.len() > 1 {
        lemma_price_total_last(s.drop_first(), p);
        assert(s.drop_first().drop_last() =~= s.drop_last().drop_first());
        assert(s.drop_last()[0] == s[0]);
        assert(s.drop_first().last() == s.last());
        assert(price_total(s.drop_last(), p) == (if s[0].live.price == p {
            s[0].live.remaining_quantity as int
        } else {
            0
        }) + price_total(s.drop_last().drop_first(), p));
    } else {
        assert(s.drop_first().len() == 0);
        assert(s.drop_last().len() == 0);
        assert(price_total(s.drop_first(), p) == 0);
        assert(price_total(s.drop_last(), p) == 0);
        assert(s.last() == s[0]);
    }
}

/// The total at a price does not depend on the order of the sequence's walk.
proof fn lemma_price_total_reverse(s: Seq<RestingOrder>, p: Price)
    ensures
        price_total(s.reverse(), p) == price_total(s, p),
    decreases s.len(),
{
    if s.len() > 0 {
        let r = s.reverse();
        lemma_price_total_reverse(s.drop_last(), p);
        assert(r.drop_first() =~= s.drop_last().reverse());
        assert(r[0] == s.last());
        lemma_price_total_last(s, p);
    }
}

/// With no order at price `p`, the total there is zero.
proof fn lemma_price_total_absent(s: Seq<RestingOrder>, p: Price)
    requires
        forall|i: int| 0 <= i < s.len() ==> (#[trigger] s[i]).live.price != p,
    ensures
        price_total(s, p) == 0,
    decreases s.len(),
{
    if s.len() > 0 {
        assert forall|i: int| 0 <= i < s.drop_first().len() implies (#[trigger] s.drop_first()[i]).live.price != p by {
            assert(s.drop_first()[i] == s[i + 1]);
        }
        lemma_price_total_absent(s.drop_first(), p);
    }
}

/// The levels of a sequence in non-decreasing price order each hold the total remaining
/// quantity of the orders at their price, when those totals fit a `Quantity`.
proof fn lemma_levels_totals(s: Seq<RestingOrder>)
    requires
        asks_sorted(s),
        levels_fit(s),
    ensures
        forall|i: int| 0 <= i < levels(s).len() ==> (#[trigger] levels(s)[i]).quantity == price_total(s, levels(s)[i].price),
    decreases s.len(),
{
    if s.len() > 0 {
        let sp = s.drop_last();
        let o = s.last().live;
        assert(asks_sorted(sp)) by {
            assert forall|i: int, j: int| 0 <= i < j < sp.len() implies (#[trigger] sp[i]).live.price <= (#[trigger] sp[j]).live.price by {
                assert(sp[i] == s[i] && sp[j] == s[j]);
            }
        }
        lemma_levels_totals(sp);
        lemma_levels_ascending(sp);
        let r = levels(sp);
        let l = levels(s);
        assert forall|p: Price| #[trigger] price_total(s, p) == price_total(sp, p) + if o.price == p {
            o.remaining_quantity as int
        } else {
            0
        } by {
            lemma_price_total_last(s, p);
        }
        if sp.len() > 0 {
            lemma_levels_last(sp);
            assert(sp.last() == s[sp.len() - 1]);
            assert(sp.last().live.price <= o.price);
        }
        assert forall|i: int| 0 <= i < r.len() implies (#[trigger] r[i]).price <= r.last().price by {
            if i < r.len() - 1 {
                assert(r[i].price < r[r.len() - 1].price);
            }
        }
        if r.len() > 0 && r.last().price == o.price {
            assert forall|i: int| 0 <= i < l.len() implies (#[trigger] l[i]).quantity == price_total(s, l[i].price) by {
                if i < r.len() - 1 {
                    assert(l[i] == r[i]);
                    assert(r[i].price < r[r.len() - 1].price);
                } else {
                    assert(l[i].quantity == r.last().quantity + o.remaining_quantity);
                }
            }
        } else {
            if sp.len() > 0 {
                assert(r.last().price < o.price);
                assert forall|i: int| 0 <= i < sp.len() implies (#[trigger] sp[i]).live.price != o.price by {
                    assert(sp[i] == s[i]);
                    if i < sp.len() - 1 {
                        assert(sp[i].live.price <= sp[sp.len() - 1].live.price);
                    }
                }
            }
            lemma_price_total_absent(sp, o.price);
            assert forall|i: int| 0 <= i < l.len() implies (#[trigger] l[i]).quantity == price_total(s, l[i].price) by {
                if i < r.len() {
                    assert(l[i] == r[i]);
                }
            }
        }
    }
}

/// Whether some order of `s` has price `p`.
pub open spec fn has_price(s: Seq<RestingOrder>, p: Price) -> bool {
    exists|j: int| 0 <= j < s.len() && s[j].live.price == p
}

/// Whether some level of `l` has price `p`.
pub open spec fn has_level(l: Seq<LevelInfo>, p: Price) -> bool {
    exists|i: int| 0 <= i < l.len() && l[i].price == p
}

/// Every level of a sequence has the price of one of its orders.
proof fn lemma_levels_from_orders(s: Seq<RestingOrder>)
    ensures
        forall|i: int| 0 <= i < levels(s).len() ==> has_price(s, #[trigger] levels(s)[i].price),
    decreases s.len(),
{
    if s.len() > 0 {
        let sp = s.drop_last();
        let o = s.last().live;
        lemma_levels_from_orders(sp);
        let r = levels(sp);
        let l = levels(s);
        assert(s[s.len() - 1].live.price == o.price);
        assert(has_price(s, o.price));
        assert forall|p: Price| has_price(sp, p) implies has_price(s, p) by {
            let j = choose|j: int| 0 <= j < sp.len() && sp[j].live.price == p;
            assert(s[j] == sp[j]);
        }
        assert forall|i: int| 0 <= i < l.len() implies has_price(s, #[trigger] l[i].price) by {
            if r.len() > 0 && r.last().price == o.price {
                if i < r.len() - 1 {
                    assert(l[i] == r[i]);
                    assert(has_price(sp, r[i].price));
                }
            } else if i < r.len() {
                assert(l[i] == r[i]);
                assert(has_price(sp, r[i].price));
            }
        }
    }
}

/// Every order's price is the price of one of the levels.
proof fn lemma_orders_in_levels(s: Seq<RestingOrder>)
    ensures
        forall|j: int| 0 <= j < s.len() ==> has_level(levels(s), #[trigger] s[j].live.price),
    decreases s.len(),
{
    if s.len() > 0 {
        let sp = s.drop_last();
        let o = s.last().live;
        lemma_orders_in_levels(sp);
        let r = levels(sp);
        let l = levels(s);
        let merged = r.len() > 0 && r.last().price == o.price;
        let k = if merged { r.len() - 1 } else { r.len() as int };
        assert(l[k].price == o.price);
        assert forall|p: Price| has_level(r, p) implies has_level(l, p) by {
            let i = choose|i: int| 0 <= i < r.len() && r[i].price == p;
            if merged && i == r.len() - 1 {
                assert(l[k].price == p);
            } else {
                assert(l[i] == r[i]);
            }
        }
        assert forall|j: int| 0 <= j < s.len() implies has_level(l, #[trigger] s[j].live.price) by {
            if j < sp.len() {
                assert(s[j] == sp[j]);
                assert(has_level(r, sp[j].live.price));
            } else {
                assert(s[j].live.price == o.price);
            }
        }
    }
}

/// A depth snapshot sums what remains: each bid level holds the total remaining
/// quantity of the resting bids at its price, and each ask level that of the resting
/// asks at its price; every level's price is that of a resting order of its side, and
/// every resting order's price has a level.
pub proof fn law_depth_totals(b: BookView)
    requires
        b.wf(),
        b.depth_fits(),
    ensures
        forall|i: int| 0 <= i < b.bid_levels().len() ==> has_price(b.bids, #[trigger] b.bid_levels()[i].price),
        forall|i: int| 0 <= i < b.ask_levels().len() ==> has_price(b.asks, #[trigger] b.ask_levels()[i].price),
        forall|j: int| 0 <= j < b.bids.len() ==> has_level(b.bid_levels(), #[trigger] b.bids[j].live.price),
        forall|j: int| 0 <= j < b.asks.len() ==> has_level(b.ask_levels(), #[trigger] b.asks[j].live.price),
        forall|i: int|
            0 <= i < b.bid_levels().len() ==> (#[trigger] b.bid_levels()[i]).quantity == price_total(
                b.bids,
                b.bid_levels()[i].price,
            ),
        forall|i: int|
            0 <= i < b.ask_levels().len() ==> (#[trigger] b.ask_levels()[i]).quantity == price_total(
                b.asks,
                b.ask_levels()[i].price,
            ),
{
    let rb = b.bids.reverse();
    assert(asks_sorted(rb)) by {
        assert forall|i: int, j: int| 0 <= i < j < rb.len() implies (#[trigger] rb[i]).live.price <= (#[trigger] rb[j]).live.price by {
            assert(rb[i] == b.bids[b.bids.len() - 1 - i]);
            assert(rb[j] == b.bids[b.bids.len() - 1 - j]);
        }
    }
    lemma_levels_totals(rb);
    lemma_levels_totals(b.asks);
    lemma_levels_from_orders(rb);
    lemma_levels_from_orders(b.asks);
    lemma_orders_in_levels(rb);
    lemma_orders_in_levels(b.asks);
    assert forall|p: Price| has_price(rb, p) == has_price(b.bids, p) by {
        if has_price(rb, p) {
            let j = choose|j: int| 0 <= j < rb.len() && rb[j].live.price == p;
            assert(b.bids[b.bids.len() - 1 - j] == rb[j]);
        }
        if has_price(b.bids, p) {
            let j = choose|j: int| 0 <= j < b.bids.len() && b.bids[j].live.price == p;
            assert(rb[b.bids.len() - 1 - j] == b.bids[j]);
        }
    }
    assert forall|j: int| 0 <= j < b.bids.len() implies has_level(b.bid_levels(), #[trigger] b.bids[j].live.price) by {
        assert(rb[b.bids.len() - 1 - j] == b.bids[j]);
        assert(has_level(levels(rb), rb[b.bids.len() - 1 - j].live.price));
    }
    assert forall|p: Price| #[trigger] price_total(rb, p) == price_total(b.bids, p) by {
        lemma_price_total_reverse(b.bids, p);
    }
}

} // verus!
