//! The mathematical model of the engine: books by trading pair, accounts by user,
//! and the spec of placing, settling and cancelling orders over them.

use vstd::prelude::*;

use crate::book_model::{law_add_then_cancel, BookView};
use crate::order::Order;
use crate::order_modify::OrderModify;
use crate::orderbook::replacement;
use crate::snowflake::{law_next_ids_increase, GeneratorView, EPOCH, TIMESTAMP_LIMIT};
use crate::trade::Trade;
use crate::trading_pair::TradingPair;
use crate::types::{Asset, OrderId, Quantity, Side, UserId};
use crate::users::{
    law_fill_moves_amounts, law_lock_unlock_roundtrip, lemma_filled_wf, lemma_lock_keeps_holding,
    lemma_unlock_keeps_holding, UserView,
};

verus! {

/// The map that sends `keys[i]` to `vals[i]`.
pub open spec fn keyed<K, V>(keys: Seq<K>, vals: Seq<V>) -> Map<K, V> {
    Map::new(
        |k: K| exists|i: int| 0 <= i < keys.len() && keys[i] == k,
        |k: K| vals[choose|i: int| 0 <= i < keys.len() && keys[i] == k],
    )
}

/// No key occurs twice.
pub open spec fn distinct<K>(keys: Seq<K>) -> bool {
    forall|i: int, j: int| 0 <= i < keys.len() && 0 <= j < keys.len() && i != j ==> keys[i] != keys[j]
}

/// With distinct keys, `keyed` sends each key to the value at its position.
pub proof fn lemma_keyed_index<K, V>(keys: Seq<K>, vals: Seq<V>, i: int)
    requires
        distinct(keys),
        0 <= i < keys.len(),
    ensures
        keyed(keys, vals).contains_key(keys[i]),
        keyed(keys, vals)[keys[i]] == vals[i],
{
    let k = keys[i];
    assert(exists|j: int| 0 <= j < keys.len() && keys[j] == k);
    let j = choose|j: int| 0 <= j < keys.len() && keys[j] == k;
    assert(j == i);
}

/// A key not among `keys` is not in `keyed(keys, vals)`.
pub proof fn lemma_keyed_absent<K, V>(keys: Seq<K>, vals: Seq<V>, k: K)
    requires
        forall|i: int| 0 <= i < keys.len() ==> keys[i] != k,
    ensures
        !keyed(keys, vals).contains_key(k),
{
}

/// Changing the value at a position changes the map at its key only.
pub proof fn lemma_keyed_update<K, V>(keys: Seq<K>, vals: Seq<V>, i: int, v: V)
    requires
        distinct(keys),
        keys.len() == vals.len(),
        0 <= i < keys.len(),
    ensures
        keyed(keys, vals.update(i, v)) == keyed(keys, vals).insert(keys[i], v),
{
    let m0 = keyed(keys, vals);
    let m1 = keyed(keys, vals.update(i, v));
    assert forall|k: K| #[trigger] m1.contains_key(k) implies m1[k] == m0.insert(keys[i], v)[k] by {
        let j = choose|j: int| 0 <= j < keys.len() && keys[j] == k;
        lemma_keyed_index(keys, vals, j);
        lemma_keyed_index(keys, vals.update(i, v), j);
    }
    assert(m1 =~= m0.insert(keys[i], v));
}

/// Adding a fresh key at the end adds it to the map.
pub proof fn lemma_keyed_push<K, V>(keys: Seq<K>, vals: Seq<V>, k: K, v: V)
    requires
        distinct(keys),
        keys.len() == vals.len(),
        forall|i: int| 0 <= i < keys.len() ==> keys[i] != k,
    ensures
        distinct(keys.push(k)),
        keyed(keys.push(k), vals.push(v)) == keyed(keys, vals).insert(k, v),
{
    let ks = keys.push(k);
    let vs = vals.push(v);
    assert(distinct(ks)) by {
        assert forall|i: int, j: int| 0 <= i < ks.len() && 0 <= j < ks.len() && i != j implies ks[i] != ks[j] by {
            if i < keys.len() && j < keys.len() {
                assert(keys[i] != keys[j]);
            }
        }
    }
    let m0 = keyed(keys, vals);
    let m1 = keyed(ks, vs);
    assert forall|x: K| #[trigger] m1.contains_key(x) implies m1[x] == m0.insert(k, v)[x] by {
        let j = choose|j: int| 0 <= j < ks.len() && ks[j] == x;
        lemma_keyed_index(ks, vs, j);
        if j < keys.len() {
            lemma_keyed_index(keys, vals, j);
        }
    }
    assert forall|x: K| m0.insert(k, v).contains_key(x) implies #[trigger] m1.contains_key(x) by {
        if x == k {
            assert(ks[keys.len() as int] == k);
        } else {
            let j = choose|j: int| 0 <= j < keys.len() && keys[j] == x;
            assert(ks[j] == x);
        }
    }
    assert(m1 =~= m0.insert(k, v));
}

/// Removing a position removes its key from the map.
pub proof fn lemma_keyed_remove<K, V>(keys: Seq<K>, vals: Seq<V>, i: int)
    requires
        distinct(keys),
        keys.len() == vals.len(),
        0 <= i < keys.len(),
    ensures
        distinct(keys.remove(i)),
        keyed(keys.remove(i), vals.remove(i)) == keyed(keys, vals).remove(keys[i]),
{
    let ks = keys.remove(i);
    let vs = vals.remove(i);
    assert forall|p: int| 0 <= p < ks.len() implies #[trigger] ks[p] == keys[if p < i { p } else { p + 1 }] && vs[p]
        == vals[if p < i { p } else { p + 1 }] by {}
    assert(distinct(ks)) by {
        assert forall|p: int, q: int| 0 <= p < ks.len() && 0 <= q < ks.len() && p != q implies ks[p] != ks[q] by {
            let pp = if p < i { p } else { p + 1 };
            let qq = if q < i { q } else { q + 1 };
            assert(keys[pp] != keys[qq]);
        }
    }
    let m0 = keyed(keys, vals);
    let m1 = keyed(ks, vs);
    assert forall|x: K| #[trigger] m1.contains_key(x) implies m0.remove(keys[i]).contains_key(x) && m1[x] == m0.remove(
        keys[i],
    )[x] by {
        let j = choose|j: int| 0 <= j < ks.len() && ks[j] == x;
        let jj = if j < i { j } else { j + 1 };
        lemma_keyed_index(ks, vs, j);
        lemma_keyed_index(keys, vals, jj);
        assert(jj != i);
    }
    assert forall|x: K| m0.remove(keys[i]).contains_key(x) implies #[trigger] m1.contains_key(x) by {
        let j = choose|j: int| 0 <= j < keys.len() && keys[j] == x;
        assert(j != i);
        if j < i {
            assert(ks[j] == x);
        } else {
            assert(ks[j - 1] == x);
        }
    }
    assert(m1 =~= m0.remove(keys[i]));
}

/// `order` with its ID replaced by `id`.
pub open spec fn with_id(order: Order, id: OrderId) -> Order {
    Order { order_id: id, ..order }
}

/// The abstract state of an engine.
pub struct EngineView {
    pub books: Map<TradingPair, BookView>,
    pub users: Map<UserId, UserView>,
    pub generator: GeneratorView,
}

/// The lock an order needs: `price * quantity` of the quote asset for a buy (the price
/// read as an unsigned 32-bit number), `quantity` of the base asset for a sell; `None`
/// when the product does not fit a `Quantity`.
pub open spec fn lock_request(pair: TradingPair, order: Order) -> Option<(Asset, Quantity)> {
    match order.side {
        Side::Buy => {
            let amount = (order.price as u32) as int * order.initial_quantity as int;
            if amount <= Quantity::MAX {
                Some((pair.quote, amount as Quantity))
            } else {
                None
            }
        },
        Side::Sell => Some((pair.base, order.initial_quantity)),
    }
}

/// The quote amount that a trade moves: the resting order's price (read as an unsigned
/// 32-bit number) times the quantity. The resting order is the ask when the incoming
/// order is a buy, the bid otherwise.
pub open spec fn quote_amount(incoming_side: Side, t: Trade) -> int {
    let price = match incoming_side {
        Side::Buy => t.ask_trade.price,
        Side::Sell => t.bid_trade.price,
    };
    (price as u32) as int * t.bid_trade.quantity as int
}

/// The buyer's account after a trade: when the buyer exists and the fill applies, its
/// lock for the bid loses the quote amount and it gains the base quantity.
pub open spec fn settle_buyer(users: Map<UserId, UserView>, pair: TradingPair, side: Side, t: Trade) -> Map<
    UserId,
    UserView,
> {
    let qty = t.bid_trade.quantity;
    let quote = quote_amount(side, t) as Quantity;
    let id = t.bid_trade.user_id;
    if users.contains_key(id) && users[id].fill_ok(t.bid_trade.order_id, pair.quote, quote) {
        users.insert(id, users[id].filled(t.bid_trade.order_id, quote, pair.base, qty))
    } else {
        users
    }
}

/// The seller's account after a trade: when the seller exists and the fill applies, its
/// lock for the ask loses the base quantity and it gains the quote amount.
pub open spec fn settle_seller(users: Map<UserId, UserView>, pair: TradingPair, side: Side, t: Trade) -> Map<
    UserId,
    UserView,
> {
    let qty = t.bid_trade.quantity;
    let quote = quote_amount(side, t) as Quantity;
    let id = t.ask_trade.user_id;
    if users.contains_key(id) && users[id].fill_ok(t.ask_trade.order_id, pair.base, qty) {
        users.insert(id, users[id].filled(t.ask_trade.order_id, qty, pair.quote, quote))
    } else {
        users
    }
}

/// Settling one trade: the buyer, then the seller.
pub open spec fn settle_one(users: Map<UserId, UserView>, pair: TradingPair, side: Side, t: Trade) -> Map<
    UserId,
    UserView,
> {
    settle_seller(settle_buyer(users, pair, side, t), pair, side, t)
}

/// Whether settling one trade stays within 32-bit arithmetic: the quote amount fits, and
/// each applied credit keeps its balance in range.
pub open spec fn settle_one_fits(users: Map<UserId, UserView>, pair: TradingPair, side: Side, t: Trade) -> bool {
    let qty = t.bid_trade.quantity;
    let quote = quote_amount(side, t);
    let b = t.bid_trade.user_id;
    let u1 = settle_buyer(users, pair, side, t);
    let s = t.ask_trade.user_id;
    &&& quote <= Quantity::MAX
    &&& users.contains_key(b) && users[b].fill_ok(t.bid_trade.order_id, pair.quote, quote as Quantity)
        ==> users[b].balance(pair.base) + qty <= Quantity::MAX
    &&& u1.contains_key(s) && u1[s].fill_ok(t.ask_trade.order_id, pair.base, qty) ==> u1[s].balance(pair.quote)
        + quote <= Quantity::MAX
}

/// Settling the trades of `trades` in order.
pub open spec fn settle(users: Map<UserId, UserView>, pair: TradingPair, side: Side, trades: Seq<Trade>) -> Map<
    UserId,
    UserView,
>
    decreases trades.len(),
{
    if trades.len() == 0 {
        users
    } else {
        settle_one(settle(users, pair, side, trades.drop_last()), pair, side, trades.last())
    }
}

/// Whether settling `trades` in order stays within 32-bit arithmetic.
pub open spec fn settle_fits(users: Map<UserId, UserView>, pair: TradingPair, side: Side, trades: Seq<Trade>) -> bool
    decreases trades.len(),
{
    trades.len() == 0 || (settle_fits(users, pair, side, trades.drop_last()) && settle_one_fits(
        settle(users, pair, side, trades.drop_last()),
        pair,
        side,
        trades.last(),
    ))
}

/// What settles of a prefix fits when the whole fits.
pub proof fn lemma_settle_fits_prefix(
    users: Map<UserId, UserView>,
    pair: TradingPair,
    side: Side,
    trades: Seq<Trade>,
    k: int,
)
    requires
        settle_fits(users, pair, side, trades),
        0 <= k <= trades.len(),
    ensures
        settle_fits(users, pair, side, trades.take(k)),
    decreases trades.len() - k,
{
    if k == trades.len() {
        assert(trades.take(k) =~= trades);
    } else {
        lemma_settle_fits_prefix(users, pair, side, trades, k + 1);
        assert(trades.take(k + 1).drop_last() =~= trades.take(k));
    }
}

/// `stamped` holds the trades `trades` with identifiers handed out one after the other
/// by a generator that went from `g0` to `g1`, and some times.
pub open spec fn stamped_by(g0: GeneratorView, g1: GeneratorView, trades: Seq<Trade>, stamped: Seq<Trade>) -> bool {
    &&& stamped.len() == trades.len()
    &&& forall|i: int|
        0 <= i < trades.len() ==> (#[trigger] stamped[i]).bid_trade == trades[i].bid_trade && stamped[i].ask_trade
            == trades[i].ask_trade
    &&& exists|gs: Seq<GeneratorView>|
        {
            &&& gs.len() == trades.len() + 1
            &&& #[trigger] gs[0] == g0
            &&& gs.last() == g1
            &&& forall|i: int| 0 <= i < trades.len() ==> (#[trigger] gs[i]).steps_to(gs[i + 1])
            &&& forall|i: int| 0 <= i < trades.len() ==> (#[trigger] stamped[i]).trade_id == gs[i + 1].last_id()
            &&& forall|i: int| 0 <= i < gs.len() ==> (#[trigger] gs[i]).wf()
        }
}

/// Along a chain of generator steps, the last millisecond never goes back.
proof fn lemma_steps_monotonic(gs: Seq<GeneratorView>, k: int)
    requires
        gs.len() > 0,
        forall|i: int| 0 <= i < gs.len() - 1 ==> (#[trigger] gs[i]).steps_to(gs[i + 1]),
        0 <= k < gs.len(),
    ensures
        gs[k].last_timestamp <= gs.last().last_timestamp,
    decreases gs.len() - k,
{
    if k < gs.len() - 1 {
        lemma_steps_monotonic(gs, k + 1);
        assert(gs[k].steps_to(gs[k + 1]));
    }
}

/// Along a chain of well-formed generator steps that stays below `TIMESTAMP_LIMIT`,
/// the identifiers handed out after the first step increase.
proof fn lemma_chain_ids_increase(gs: Seq<GeneratorView>, a: int, b: int)
    requires
        forall|i: int| 0 <= i < gs.len() - 1 ==> (#[trigger] gs[i]).steps_to(gs[i + 1]),
        forall|i: int| 0 <= i < gs.len() ==> (#[trigger] gs[i]).wf(),
        1 <= a < b < gs.len(),
        gs.last().last_timestamp < TIMESTAMP_LIMIT,
    ensures
        gs[a].last_id() < gs[b].last_id(),
    decreases b - a,
{
    lemma_steps_monotonic(gs, a + 1);
    lemma_steps_monotonic(gs, a);
    assert(gs[a - 1].steps_to(gs[a]));
    assert(gs[a].steps_to(gs[a + 1]));
    law_next_ids_increase(gs[a], gs[a + 1]);
    if a + 1 < b {
        lemma_chain_ids_increase(gs, a + 1, b);
    }
}

/// The trades of one placement get strictly increasing identifiers, as long as the
/// clock reads below `TIMESTAMP_LIMIT` (after which the timestamp bits wrap).
pub proof fn law_trade_ids_increase(g0: GeneratorView, g1: GeneratorView, trades: Seq<Trade>, stamped: Seq<Trade>)
    requires
        stamped_by(g0, g1, trades, stamped),
        g1.last_timestamp < TIMESTAMP_LIMIT,
    ensures
        forall|i: int, j: int|
            0 <= i < j < stamped.len() ==> (#[trigger] stamped[i]).trade_id < (#[trigger] stamped[j]).trade_id,
{
    let gs = choose|gs: Seq<GeneratorView>|
        {
            &&& gs.len() == trades.len() + 1
            &&& #[trigger] gs[0] == g0
            &&& gs.last() == g1
            &&& forall|i: int| 0 <= i < trades.len() ==> (#[trigger] gs[i]).steps_to(gs[i + 1])
            &&& forall|i: int| 0 <= i < trades.len() ==> (#[trigger] stamped[i]).trade_id == gs[i + 1].last_id()
            &&& forall|i: int| 0 <= i < gs.len() ==> (#[trigger] gs[i]).wf()
        };
    assert forall|i: int, j: int| 0 <= i < j < stamped.len() implies (#[trigger] stamped[i]).trade_id < (
    #[trigger] stamped[j]).trade_id by {
        lemma_chain_ids_increase(gs, i + 1, j + 1);
    }
}

/// How placing an order ends.
pub enum AddOutcome {
    /// Refused with this message.
    Failed(Seq<char>),
    /// Rejected by the book (duplicate ID, or fill-and-kill that cannot trade).
    Rejected,
    /// Placed; these trades happened (with placeholder IDs and times).
    Placed(Seq<Trade>),
}

impl EngineView {
    /// The invariant of the engine's abstract state: every book and every account is
    /// well formed, each account under its own ID, and the generator is in range.
    pub open spec fn wf(self) -> bool {
        &&& forall|p: TradingPair| #[trigger] self.books.contains_key(p) ==> self.books[p].wf()
        &&& forall|u: UserId| #[trigger] self.users.contains_key(u) ==> self.users[u].wf() && self.users[u].id == u
        &&& self.generator.wf()
    }

    /// The accounts once `user_id` has locked what `order` needs (before the book is
    /// consulted); meaningful when the lock succeeds.
    pub open spec fn users_after_lock(self, user_id: UserId, pair: TradingPair, order: Order) -> Map<UserId, UserView> {
        let (asset, amount) = lock_request(pair, order).unwrap();
        self.users.insert(user_id, self.users[user_id].locked_for(order.order_id, asset, amount))
    }

    /// Placing `order` for `user_id` on `pair`: the resulting books and accounts (the
    /// generator aside) and how it ended.
    ///
    /// In order: "Lock amount overflow" when a buy's lock does not fit; "User not found";
    /// "Insufficient balance" when the balance does not cover the lock; "Trading pair not
    /// found"; rejection when the book refuses the order (its ID already rests, or it is
    /// fill-and-kill with nothing to trade against). All of these change nothing.
    /// Otherwise the order's lock is taken and the book places the order, passing over
    /// the user's own resting orders when `skip_own`; the trades are settled, and when the
    /// order no longer rests, what is still locked for it is released.
    pub open spec fn add_order(self, user_id: UserId, pair: TradingPair, order: Order, skip_own: bool) -> (
        Map<TradingPair, BookView>,
        Map<UserId, UserView>,
        AddOutcome,
    ) {
        if lock_request(pair, order) is None {
            (self.books, self.users, AddOutcome::Failed("Lock amount overflow"@))
        } else if !self.users.contains_key(user_id) {
            (self.books, self.users, AddOutcome::Failed("User not found"@))
        } else if self.users[user_id].available(lock_request(pair, order).unwrap().0)
            < lock_request(pair, order).unwrap().1 {
            (self.books, self.users, AddOutcome::Failed("Insufficient balance"@))
        } else if !self.books.contains_key(pair) {
            (self.books, self.users, AddOutcome::Failed("Trading pair not found"@))
        } else {
            let users1 = self.users_after_lock(user_id, pair, order);
            match self.books[pair].add(order, skip_own) {
                None => (self.books, self.users, AddOutcome::Rejected),
                Some((nb, trades)) => {
                    let users2 = settle(users1, pair, order.side, trades);
                    let users3 = if !nb.contains(order.order_id) && users2.contains_key(user_id)
                        && users2[user_id].has_lock(order.order_id) {
                        users2.insert(user_id, users2[user_id].unlocked(order.order_id))
                    } else {
                        users2
                    };
                    (self.books.insert(pair, nb), users3, AddOutcome::Placed(trades))
                },
            }
        }
    }

    /// Whether placing `order` stays within 32-bit arithmetic: the user's locked total
    /// fits once the order's lock is taken, settling its trades fits, and so does
    /// releasing what is left of its lock afterwards.
    pub open spec fn add_order_fits(self, user_id: UserId, pair: TradingPair, order: Order, skip_own: bool) -> bool {
        &&& lock_request(pair, order) is Some && self.users.contains_key(user_id) && self.users[user_id].available(
            lock_request(pair, order).unwrap().0,
        ) >= lock_request(pair, order).unwrap().1 ==> self.users[user_id].lock_fits(
            order.order_id,
            lock_request(pair, order).unwrap().0,
            lock_request(pair, order).unwrap().1,
        )
        &&& lock_request(pair, order) is Some && self.users.contains_key(user_id) && self.users[user_id].available(
            lock_request(pair, order).unwrap().0,
        ) >= lock_request(pair, order).unwrap().1 && self.books.contains_key(pair) && self.books[pair].add(
            order,
            skip_own,
        ) is Some ==> {
            let users1 = self.users_after_lock(user_id, pair, order);
            let (nb, trades) = self.books[pair].add(order, skip_own).unwrap();
            let users2 = settle(users1, pair, order.side, trades);
            &&& settle_fits(users1, pair, order.side, trades)
            &&& !nb.contains(order.order_id) && users2.contains_key(user_id) && users2[user_id].has_lock(
                order.order_id,
            ) ==> users2[user_id].balance(users2[user_id].lock_entry(order.order_id).asset)
                + users2[user_id].lock_entry(order.order_id).amount <= Quantity::MAX
        }
    }

    /// Cancelling order `order_id` on `pair`: the resulting books and accounts, and the
    /// answer. `false`, changing nothing, when the pair or the order is missing. Otherwise
    /// the order leaves its book; when its owner exists, its lock is released and the
    /// answer is whether it had one; when its owner does not exist, the answer is `true`.
    pub open spec fn cancel_order(self, pair: TradingPair, order_id: OrderId) -> (
        Map<TradingPair, BookView>,
        Map<UserId, UserView>,
        bool,
    ) {
        if !self.books.contains_key(pair) || !self.books[pair].contains(order_id) {
            (self.books, self.users, false)
        } else {
            let (nb, placed) = self.books[pair].cancel(order_id);
            let owner = placed.unwrap().user_id;
            let books = self.books.insert(pair, nb);
            if !self.users.contains_key(owner) {
                (books, self.users, true)
            } else if self.users[owner].has_lock(order_id) {
                (books, self.users.insert(owner, self.users[owner].unlocked(order_id)), true)
            } else {
                (books, self.users, false)
            }
        }
    }

    /// The engine after cancelling order `order_id` on `pair`.
    pub open spec fn after_cancel(self, pair: TradingPair, order_id: OrderId) -> EngineView {
        let (books, users, _) = self.cancel_order(pair, order_id);
        EngineView { books, users, generator: self.generator }
    }

    /// Whether replacing the order named by `m` on `pair` stays within 32-bit arithmetic,
    /// whatever time the replacement is created at and whatever ID it is given.
    pub open spec fn modify_order_fits(self, pair: TradingPair, m: OrderModify, skip_own: bool) -> bool {
        self.books.contains_key(pair) && self.books[pair].contains(m.order_id) ==> {
            &&& self.cancel_order_fits(pair, m.order_id)
            &&& forall|ts: u64, id: OrderId|
                #![trigger with_id(replacement(m, self.books[pair].order_type_of(m.order_id).unwrap(), ts), id)]
                self.after_cancel(pair, m.order_id).add_order_fits(
                    m.user_id,
                    pair,
                    with_id(replacement(m, self.books[pair].order_type_of(m.order_id).unwrap(), ts), id),
                    skip_own,
                )
        }
    }

    /// Whether cancelling stays within 32-bit arithmetic: releasing the owner's lock keeps
    /// its balance in range.
    pub open spec fn cancel_order_fits(self, pair: TradingPair, order_id: OrderId) -> bool {
        self.books.contains_key(pair) && self.books[pair].contains(order_id) ==> {
            let owner = self.books[pair].cancel(order_id).1.unwrap().user_id;
            self.users.contains_key(owner) && self.users[owner].has_lock(order_id) ==> self.users[owner].balance(
                self.users[owner].lock_entry(order_id).asset,
            ) + self.users[owner].lock_entry(order_id).amount <= Quantity::MAX
        }
    }
}


/// What a user holds of asset `a`: the balance plus what is locked.
pub open spec fn holding(u: UserView, a: Asset) -> int {
    u.balance(a) + u.locked(a)
}

/// Settling a trade between two different users whose fills both apply conserves, for
/// the base and the quote asset, what the two hold together: the base quantity moves
/// from the seller's lock to the buyer's balance, the quote amount from the buyer's lock
/// to the seller's balance.
pub proof fn law_settle_one_conserves(
    users: Map<UserId, UserView>,
    pair: TradingPair,
    side: Side,
    t: Trade,
    a: Asset,
)
    requires
        forall|u: UserId| #[trigger] users.contains_key(u) ==> users[u].wf(),
        pair.base != pair.quote,
        a == pair.base || a == pair.quote,
        t.bid_trade.user_id != t.ask_trade.user_id,
        users.contains_key(t.bid_trade.user_id),
        users.contains_key(t.ask_trade.user_id),
        users[t.bid_trade.user_id].fill_ok(t.bid_trade.order_id, pair.quote, quote_amount(side, t) as Quantity),
        users[t.ask_trade.user_id].fill_ok(t.ask_trade.order_id, pair.base, t.bid_trade.quantity),
        settle_one_fits(users, pair, side, t),
    ensures
        holding(settle_one(users, pair, side, t)[t.bid_trade.user_id], a) + holding(
            settle_one(users, pair, side, t)[t.ask_trade.user_id],
            a,
        ) == holding(users[t.bid_trade.user_id], a) + holding(users[t.ask_trade.user_id], a),
{
    let b = t.bid_trade.user_id;
    let s = t.ask_trade.user_id;
    let qty = t.bid_trade.quantity;
    let quote = quote_amount(side, t) as Quantity;
    let u1 = settle_buyer(users, pair, side, t);
    assert(u1[s] == users[s]);
    law_fill_moves_amounts(users[b], t.bid_trade.order_id, pair.quote, quote, pair.base, qty, a);
    law_fill_moves_amounts(users[s], t.ask_trade.order_id, pair.base, qty, pair.quote, quote, a);
}

/// Placing an order that rests without trading, then cancelling it, gives back the books
/// and the accounts as they were (for an order of the placing user, with no lock under
/// its ID yet), and the cancel answers `true`.
pub proof fn law_add_then_cancel_restores(e: EngineView, user_id: UserId, pair: TradingPair, o: Order, skip_own: bool)
    requires
        e.wf(),
        o.user_id == user_id,
        e.users.contains_key(user_id) ==> !e.users[user_id].has_lock(o.order_id),
        e.add_order(user_id, pair, o, skip_own).2 matches AddOutcome::Placed(t) && t.len() == 0,
        e.add_order(user_id, pair, o, skip_own).0[pair].contains(o.order_id),
    ensures
        (EngineView {
            books: e.add_order(user_id, pair, o, skip_own).0,
            users: e.add_order(user_id, pair, o, skip_own).1,
            generator: e.generator,
        }).cancel_order(pair, o.order_id) == (e.books, e.users, true),
{
    let (asset, amount) = lock_request(pair, o).unwrap();
    let u = e.users[user_id];
    let (nb, t) = e.books[pair].add(o, skip_own).unwrap();
    let users1 = e.users_after_lock(user_id, pair, o);
    assert(settle(users1, pair, o.side, t) == users1);
    let e1 = EngineView { books: e.add_order(user_id, pair, o, skip_own).0, users: e.add_order(user_id, pair, o, skip_own).1, generator: e.generator };
    assert(e1.books == e.books.insert(pair, nb));
    assert(e1.users == users1);
    law_add_then_cancel(e.books[pair], o, skip_own);
    let v = u.locked_for(o.order_id, asset, amount);
    assert(v.locks[u.locks.len() as int].0 == o.order_id);
    assert(v.has_lock(o.order_id));
    law_lock_unlock_roundtrip(u, o.order_id, asset, amount);
    assert(e1.books.insert(pair, e.books[pair]) =~= e.books);
    assert(users1.insert(user_id, u) =~= e.users);
}

/// A fresh identifier differs from every identifier that the generator handed out
/// before it, as long as the clock reads below `TIMESTAMP_LIMIT`: a replacement never
/// takes the ID of an order that the same generator numbered earlier.
pub proof fn law_fresh_id_differs(g0: GeneratorView, g1: GeneratorView, earlier: OrderId)
    requires
        g0.wf(),
        g1.wf(),
        g0.last_timestamp >= EPOCH,
        g0.steps_to(g1),
        g1.last_timestamp < TIMESTAMP_LIMIT,
        earlier <= g0.last_id(),
    ensures
        g1.last_id() != earlier,
{
    law_next_ids_increase(g0, g1);
}

/// An order that is refused, whether with an error or by the book's rejection (an ID
/// already resting, or a fill-and-kill order with nothing to trade against), leaves the
/// books and the accounts as they were.
pub proof fn law_refused_order_changes_nothing(e: EngineView, user_id: UserId, pair: TradingPair, o: Order, skip_own: bool)
    requires
        !(e.add_order(user_id, pair, o, skip_own).2 is Placed),
    ensures
        e.add_order(user_id, pair, o, skip_own).0 == e.books,
        e.add_order(user_id, pair, o, skip_own).1 == e.users,
{
}

/// What the accounts `ids` hold together of asset `a` (balances plus locked totals).
pub open spec fn total_holding(users: Map<UserId, UserView>, ids: Seq<UserId>, a: Asset) -> int
    decreases ids.len(),
{
    if ids.len() == 0 {
        0
    } else {
        total_holding(users, ids.drop_last(), a) + holding(users[ids.last()], a)
    }
}

/// Replacing the account of `id` changes the total of `ids` by the change of that
/// account when `id` is among them, and not at all otherwise.
proof fn lemma_total_update(users: Map<UserId, UserView>, ids: Seq<UserId>, id: UserId, v: UserView, a: Asset)
    requires
        distinct(ids),
    ensures
        total_holding(users.insert(id, v), ids, a) == total_holding(users, ids, a) + if ids.contains(id) {
            holding(v, a) - holding(users[id], a)
        } else {
            0
        },
    decreases ids.len(),
{
    if ids.len() > 0 {
        let p = ids.drop_last();
        assert(distinct(p)) by {
            assert forall|i: int, j: int| 0 <= i < p.len() && 0 <= j < p.len() && i != j implies p[i] != p[j] by {
                assert(p[i] == ids[i] && p[j] == ids[j]);
            }
        }
        lemma_total_update(users, p, id, v, a);
        if ids.last() == id {
            assert(!p.contains(id)) by {
                if p.contains(id) {
                    let i = choose|i: int| 0 <= i < p.len() && p[i] == id;
                    assert(ids[i] == ids[ids.len() - 1]);
                }
            }
            assert(ids.contains(id)) by {
                assert(ids[ids.len() - 1] == id);
            }
        } else {
            assert(ids.contains(id) == p.contains(id)) by {
                if ids.contains(id) {
                    let i = choose|i: int| 0 <= i < ids.len() && ids[i] == id;
                    assert(i < ids.len() - 1);
                    assert(p[i] == id);
                }
                if p.contains(id) {
                    let i = choose|i: int| 0 <= i < p.len() && p[i] == id;
                    assert(ids[i] == id);
                }
            }
        }
    }
}

/// Whether, as `trades` are settled in order from `users`, each is between two
/// different accounts among `ids` and both of its fills apply.
pub open spec fn fills_apply(
    users: Map<UserId, UserView>,
    pair: TradingPair,
    side: Side,
    trades: Seq<Trade>,
    ids: Seq<UserId>,
) -> bool
    decreases trades.len(),
{
    trades.len() == 0 || (fills_apply(users, pair, side, trades.drop_last(), ids) && {
        let u = settle(users, pair, side, trades.drop_last());
        let t = trades.last();
        let b = t.bid_trade.user_id;
        let s = t.ask_trade.user_id;
        &&& b != s
        &&& ids.contains(b) && ids.contains(s)
        &&& u.contains_key(b) && u.contains_key(s)
        &&& u[b].fill_ok(t.bid_trade.order_id, pair.quote, quote_amount(side, t) as Quantity)
        &&& u[s].fill_ok(t.ask_trade.order_id, pair.base, t.bid_trade.quantity)
    })
}

/// Settling trades whose fills all apply, between accounts among `ids`, keeps what
/// those accounts hold together of every asset, and keeps every account well formed.
pub proof fn law_settle_conserves(
    users: Map<UserId, UserView>,
    pair: TradingPair,
    side: Side,
    trades: Seq<Trade>,
    ids: Seq<UserId>,
    a: Asset,
)
    requires
        forall|u: UserId| #[trigger] users.contains_key(u) ==> users[u].wf(),
        pair.base != pair.quote,
        distinct(ids),
        settle_fits(users, pair, side, trades),
        fills_apply(users, pair, side, trades, ids),
    ensures
        total_holding(settle(users, pair, side, trades), ids, a) == total_holding(users, ids, a),
        forall|u: UserId| #[trigger] settle(users, pair, side, trades).contains_key(u) ==> settle(
            users,
            pair,
            side,
            trades,
        )[u].wf(),
        settle(users, pair, side, trades).dom() == users.dom(),
    decreases trades.len(),
{
    if trades.len() > 0 {
        let prev = settle(users, pair, side, trades.drop_last());
        law_settle_conserves(users, pair, side, trades.drop_last(), ids, a);
        let t = trades.last();
        let b = t.bid_trade.user_id;
        let s = t.ask_trade.user_id;
        let qty = t.bid_trade.quantity;
        let quote = quote_amount(side, t) as Quantity;
        assert(settle_one_fits(prev, pair, side, t));
        let vb = prev[b].filled(t.bid_trade.order_id, quote, pair.base, qty);
        let u1 = prev.insert(b, vb);
        assert(settle_buyer(prev, pair, side, t) == u1);
        assert(u1[s] == prev[s]);
        let vs = u1[s].filled(t.ask_trade.order_id, qty, pair.quote, quote);
        let u2 = u1.insert(s, vs);
        assert(settle_seller(u1, pair, side, t) == u2);
        assert(settle(users, pair, side, trades) == u2);
        lemma_filled_wf(prev[b], t.bid_trade.order_id, pair.quote, quote, pair.base, qty);
        lemma_filled_wf(prev[s], t.ask_trade.order_id, pair.base, qty, pair.quote, quote);
        lemma_total_update(prev, ids, b, vb, a);
        lemma_total_update(u1, ids, s, vs, a);
        if a == pair.base || a == pair.quote {
            law_settle_one_conserves(prev, pair, side, t, a);
        } else {
            law_fill_moves_amounts(prev[b], t.bid_trade.order_id, pair.quote, quote, pair.base, qty, a);
            law_fill_moves_amounts(prev[s], t.ask_trade.order_id, pair.base, qty, pair.quote, quote, a);
        }
        assert(u2.dom() =~= users.dom());
    }
}

/// Placing an order creates and destroys nothing: when its trades are between
/// different accounts among `ids` (the placing account among them) and all their fills
/// apply, what the accounts `ids` hold together of every asset is the same after as
/// before (for an order of a pair of two different assets, with no lock under its ID
/// yet).
pub proof fn law_add_order_conserves(
    e: EngineView,
    user_id: UserId,
    pair: TradingPair,
    o: Order,
    ids: Seq<UserId>,
    a: Asset,
    skip_own: bool,
)
    requires
        e.wf(),
        pair.base != pair.quote,
        distinct(ids),
        ids.contains(user_id),
        e.users.contains_key(user_id) ==> !e.users[user_id].has_lock(o.order_id),
        e.add_order_fits(user_id, pair, o, skip_own),
        e.add_order(user_id, pair, o, skip_own).2 matches AddOutcome::Placed(trades) && fills_apply(
            e.users_after_lock(user_id, pair, o),
            pair,
            o.side,
            trades,
            ids,
        ),
    ensures
        total_holding(e.add_order(user_id, pair, o, skip_own).1, ids, a) == total_holding(e.users, ids, a),
{
    let (asset, amount) = lock_request(pair, o).unwrap();
    let u = e.users[user_id];
    let (nb, trades) = e.books[pair].add(o, skip_own).unwrap();
    lemma_lock_keeps_holding(u, o.order_id, asset, amount, a);
    let users1 = e.users_after_lock(user_id, pair, o);
    lemma_total_update(e.users, ids, user_id, u.locked_for(o.order_id, asset, amount), a);
    assert forall|x: UserId| #[trigger] users1.contains_key(x) implies users1[x].wf() by {
        if x != user_id {
            assert(users1[x] == e.users[x]);
        }
    }
    law_settle_conserves(users1, pair, o.side, trades, ids, a);
    let users2 = settle(users1, pair, o.side, trades);
    if !nb.contains(o.order_id) && users2.contains_key(user_id) && users2[user_id].has_lock(o.order_id) {
        lemma_unlock_keeps_holding(users2[user_id], o.order_id, a);
        lemma_total_update(users2, ids, user_id, users2[user_id].unlocked(o.order_id), a);
    }
}

/// Cancelling an order creates and destroys nothing: what any accounts `ids` hold
/// together of every asset is the same after as before.
pub proof fn law_cancel_order_conserves(e: EngineView, pair: TradingPair, order_id: OrderId, ids: Seq<UserId>, a: Asset)
    requires
        e.wf(),
        distinct(ids),
        e.cancel_order_fits(pair, order_id),
    ensures
        total_holding(e.cancel_order(pair, order_id).1, ids, a) == total_holding(e.users, ids, a),
{
    if e.books.contains_key(pair) && e.books[pair].contains(order_id) {
        let owner = e.books[pair].cancel(order_id).1.unwrap().user_id;
        if e.users.contains_key(owner) && e.users[owner].has_lock(order_id) {
            lemma_unlock_keeps_holding(e.users[owner], order_id, a);
            lemma_total_update(e.users, ids, owner, e.users[owner].unlocked(order_id), a);
        }
    }
}

} // verus!
