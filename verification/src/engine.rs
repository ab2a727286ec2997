//! The core engine: order books by trading pair, user accounts, and an identifier
//! generator. It locks balances, places orders in books, settles trades and releases
//! locks.

use vstd::prelude::*;

use crate::book_model::BookView;
use crate::engine_model::{
    distinct, keyed, lemma_keyed_absent, lemma_keyed_index, lemma_keyed_push, lemma_keyed_remove,
    lemma_keyed_update, EngineView,
};
use std::collections::HashMap;
use crate::level_info::OrderBookLevelInfo;
use crate::orderbook::OrderBook;
use crate::snowflake::SnowflakeGenerator;
use crate::trade::Trades;
use crate::trading_pair::TradingPair;
use crate::types::{asset_from_slot, Asset, OrderId, OrderType, Quantity, UserId, ASSET_COUNT};
use crate::users::{lemma_locked_for_entry, User, UserView};
use crate::engine_model::{stamped_by, with_id, lemma_settle_fits_prefix, lock_request, quote_amount, settle, settle_buyer, settle_one, settle_one_fits, settle_fits, AddOutcome};
use crate::clock::unix_nanos;
use crate::order::Order;
use crate::order_modify::OrderModify;
use crate::orderbook::replacement;
use crate::snowflake::{GeneratorView, EPOCH, TIMESTAMP_LIMIT};
use crate::engine_model::law_fresh_id_differs;
use crate::trade::Trade;
use crate::types::Side;

verus! {

broadcast use vstd::std_specs::hash::group_hash_axioms;

/// The result of placing an order: its ID and the trades it made.
pub struct AddOrderResult {
    pub order_id: OrderId,
    pub trades: Option<Trades>,
}

/// The core matching engine.
#[derive(Debug)]
pub struct CoreEngine {
    pairs: Vec<TradingPair>,
    books: Vec<OrderBook>,
    users: HashMap<UserId, User>,
    id_generator: SnowflakeGenerator,
}

/// The states of the accounts held in `m`, by user ID.
pub open spec fn account_views(m: Map<UserId, User>) -> Map<UserId, UserView> {
    Map::new(|k: UserId| m.contains_key(k), |k: UserId| m[k]@)
}

/// Putting an account under `k` puts its state there.
proof fn lemma_account_views_insert(m: Map<UserId, User>, k: UserId, u: User)
    ensures
        account_views(m.insert(k, u)) == account_views(m).insert(k, u@),
{
    assert(account_views(m.insert(k, u)) =~= account_views(m).insert(k, u@));
}

/// Taking the account under `k` out takes its state out.
proof fn lemma_account_views_remove(m: Map<UserId, User>, k: UserId)
    ensures
        account_views(m.remove(k)) == account_views(m).remove(k),
{
    assert(account_views(m.remove(k)) =~= account_views(m).remove(k));
}

impl View for CoreEngine {
    type V = EngineView;

    closed spec fn view(&self) -> EngineView {
        EngineView {
            books: keyed(self.pairs@, self.book_views()),
            users: account_views(self.users@),
            generator: self.id_generator@,
        }
    }
}

impl CoreEngine {
    /// The states of the books, by position.
    closed spec fn book_views(&self) -> Seq<BookView> {
        self.books@.map_values(|b: OrderBook| b@)
    }


    /// The invariant of an engine: one book per pair, one account per user ID, and every
    /// book, account and the generator well formed.
    pub closed spec fn inv(&self) -> bool {
        &&& self.pairs@.len() == self.books@.len()
        &&& distinct(self.pairs@)
        &&& forall|i: int| 0 <= i < self.books@.len() ==> (#[trigger] self.books@[i])@.wf()
        &&& forall|u: UserId| #[trigger] self.users@.contains_key(u) ==> self.users@[u]@.wf() && self.users@[u]@.id == u
        &&& self.id_generator@.wf()
    }

    /// The invariant makes the abstract state well formed.
    pub proof fn lemma_inv_wf(&self)
        requires
            self.inv(),
        ensures
            self@.wf(),
    {
        assert forall|p: TradingPair| #[trigger] self@.books.contains_key(p) implies self@.books[p].wf() by {
            let i = choose|i: int| 0 <= i < self.pairs@.len() && self.pairs@[i] == p;
            lemma_keyed_index(self.pairs@, self.book_views(), i);
            assert(self.books@[i]@.wf());
        }
        assert forall|u: UserId| #[trigger] self@.users.contains_key(u) implies self@.users[u].wf()
            && self@.users[u].id == u by {
            assert(self.users@.contains_key(u));
        }
    }

    /// Creates an engine with no pairs and no users, and a generator for machine 1 of
    /// datacenter 1.
    pub fn new() -> (e: Self)
        ensures
            e.inv(),
            e@.books == Map::<TradingPair, BookView>::empty(),
            e@.users == Map::<UserId, UserView>::empty(),
            e@.generator.machine_id == 1 && e@.generator.datacenter_id == 1,
            e@.generator.sequence == 0 && e@.generator.last_timestamp == 0,
    {
        let e = CoreEngine {
            pairs: Vec::new(),
            books: Vec::new(),
            users: HashMap::new(),
            id_generator: SnowflakeGenerator::new(1, 1),
        };
        proof {
            assert(e@.books =~= Map::<TradingPair, BookView>::empty());
            assert(e@.users =~= Map::<UserId, UserView>::empty());
        }
        e
    }

    /// Returns the next identifier of the engine's generator.
    pub fn next_id(&mut self) -> (id: OrderId)
        requires
            old(self).inv(),
        ensures
            final(self).inv(),
            final(self)@.books == old(self)@.books,
            final(self)@.users == old(self)@.users,
            old(self)@.generator.steps_to(final(self)@.generator),
            id == final(self)@.generator.last_id(),
    {
        self.id_generator.next_id()
    }

    /// Returns the position of `pair`, if it has a book.
    fn find_pair(&self, pair: &TradingPair) -> (r: Option<usize>)
        requires
            self.inv(),
        ensures
            match r {
                Some(i) => i < self.pairs@.len() && self.pairs@[i as int] == *pair && self@.books.contains_key(*pair)
                    && self@.books[*pair] == self.books@[i as int]@,
                None => !self@.books.contains_key(*pair),
            },
    {
        let mut i: usize = 0;
        while i < self.pairs.len()
            invariant
                self.inv(),
                i <= self.pairs.len(),
                forall|j: int| 0 <= j < i ==> self.pairs@[j] != *pair,
            decreases self.pairs.len() - i,
        {
            if self.pairs[i] == *pair {
                proof {
                    lemma_keyed_index(self.pairs@, self.book_views(), i as int);
                }
                return Some(i);
            }
            i = i + 1;
        }
        proof {
            lemma_keyed_absent(self.pairs@, self.book_views(), *pair);
        }
        None
    }

    /// Locks `amount` of `asset` for order `order_id` in the account of `user_id`.
    fn lock_for(&mut self, user_id: UserId, order_id: OrderId, asset: Asset, amount: Quantity) -> (r: Result<(), String>)
        requires
            old(self).inv(),
            old(self)@.users.contains_key(user_id) && old(self)@.users[user_id].available(asset) >= amount
                ==> old(self)@.users[user_id].lock_fits(order_id, asset, amount),
        ensures
            final(self).inv(),
            final(self)@.books == old(self)@.books,
            final(self).books@ == old(self).books@,
            final(self).pairs@ == old(self).pairs@,
            final(self)@.generator == old(self)@.generator,
            !old(self)@.users.contains_key(user_id) ==> (r matches Err(e) && e@ == "User not found"@
                && final(self)@.users == old(self)@.users),
            old(self)@.users.contains_key(user_id) && old(self)@.users[user_id].available(asset) < amount ==> (
            r matches Err(e) && e@ == "Insufficient balance"@ && final(self)@.users == old(self)@.users),
            old(self)@.users.contains_key(user_id) && old(self)@.users[user_id].available(asset) >= amount ==> r is Ok
                && final(self)@.users == old(self)@.users.insert(
                user_id,
                old(self)@.users[user_id].locked_for(order_id, asset, amount),
            ),
    {
        let ghost m0 = self.users@;
        match self.users.remove(&user_id) {
            None => {
                proof {
                    assert(self.users@ =~= m0);
                }
                Err(String::from_str("User not found"))
            },
            Some(mut u) => {
                let r = u.lock(order_id, asset, amount);
                self.users.insert(user_id, u);
                proof {
                    assert(self.users@ =~= m0.insert(user_id, u));
                    lemma_account_views_insert(m0, user_id, u);
                    if r is Err {
                        assert(account_views(m0).insert(user_id, u@) =~= account_views(m0));
                    }
                }
                r
            },
        }
    }

    /// Releases the lock of order `order_id` in the account of `user_id`, when both
    /// exist; returns whether a lock was released.
    fn unlock_for(&mut self, user_id: UserId, order_id: OrderId) -> (r: bool)
        requires
            old(self).inv(),
            old(self)@.users.contains_key(user_id) && old(self)@.users[user_id].has_lock(order_id) ==> old(self)@.users[user_id].balance(
                old(self)@.users[user_id].lock_entry(order_id).asset,
            ) + old(self)@.users[user_id].lock_entry(order_id).amount <= Quantity::MAX,
        ensures
            final(self).inv(),
            final(self)@.books == old(self)@.books,
            final(self).books@ == old(self).books@,
            final(self)@.generator == old(self)@.generator,
            r == (old(self)@.users.contains_key(user_id) && old(self)@.users[user_id].has_lock(order_id)),
            final(self)@.users == if r {
                old(self)@.users.insert(user_id, old(self)@.users[user_id].unlocked(order_id))
            } else {
                old(self)@.users
            },
    {
        let ghost m0 = self.users@;
        match self.users.remove(&user_id) {
            None => {
                proof {
                    assert(self.users@ =~= m0);
                }
                false
            },
            Some(mut u) => {
                let r = u.unlock_order(&order_id);
                self.users.insert(user_id, u);
                proof {
                    assert(self.users@ =~= m0.insert(user_id, u));
                    lemma_account_views_insert(m0, user_id, u);
                    if r is Err {
                        assert(account_views(m0).insert(user_id, u@) =~= account_views(m0));
                    }
                }
                r.is_ok()
            },
        }
    }

    /// Applies a fill of order `order_id` to the account of `user_id`, when it exists.
    fn apply_fill_for(
        &mut self,
        user_id: UserId,
        order_id: OrderId,
        debit_asset: Asset,
        debit_amount: Quantity,
        credit_asset: Asset,
        credit_amount: Quantity,
    )
        requires
            old(self).inv(),
            old(self)@.users.contains_key(user_id) && old(self)@.users[user_id].fill_ok(order_id, debit_asset, debit_amount)
                ==> old(self)@.users[user_id].balance(credit_asset) + credit_amount <= Quantity::MAX,
        ensures
            final(self).inv(),
            final(self)@.books == old(self)@.books,
            final(self).books@ == old(self).books@,
            final(self)@.generator == old(self)@.generator,
            final(self)@.users == if old(self)@.users.contains_key(user_id) && old(self)@.users[user_id].fill_ok(
                order_id,
                debit_asset,
                debit_amount,
            ) {
                old(self)@.users.insert(
                    user_id,
                    old(self)@.users[user_id].filled(order_id, debit_amount, credit_asset, credit_amount),
                )
            } else {
                old(self)@.users
            },
    {
        let ghost m0 = self.users@;
        match self.users.remove(&user_id) {
            None => {
                proof {
                    assert(self.users@ =~= m0);
                }
            },
            Some(mut u) => {
                let r = u.apply_fill(order_id, debit_asset, debit_amount, credit_asset, credit_amount);
                self.users.insert(user_id, u);
                proof {
                    assert(self.users@ =~= m0.insert(user_id, u));
                    lemma_account_views_insert(m0, user_id, u);
                    if r is Err {
                        assert(account_views(m0).insert(user_id, u@) =~= account_views(m0));
                    }
                }
            },
        }
    }

    /// Registers `pair` with an empty book; does nothing when it already has one.
    pub fn add_trading_pair(&mut self, pair: TradingPair)
        requires
            old(self).inv(),
        ensures
            final(self).inv(),
            final(self)@.users == old(self)@.users,
            final(self)@.generator == old(self)@.generator,
            old(self)@.books.contains_key(pair) ==> final(self)@.books == old(self)@.books,
            !old(self)@.books.contains_key(pair) ==> final(self)@.books == old(self)@.books.insert(
                pair,
                BookView { bids: Seq::empty(), asks: Seq::empty() },
            ),
    {
        match self.find_pair(&pair) {
            Some(_) => {},
            None => {
                let ghost old_views = self.book_views();
                let book = OrderBook::new();
                proof {
                    assert(book@.bids =~= Seq::<crate::book_model::RestingOrder>::empty());
                    assert(book@.asks =~= Seq::<crate::book_model::RestingOrder>::empty());
                    assert(book@ == BookView { bids: Seq::empty(), asks: Seq::empty() });
                    assert forall|j: int| 0 <= j < self.pairs@.len() implies self.pairs@[j] != pair by {
                        if self.pairs@[j] == pair {
                            lemma_keyed_index(self.pairs@, self.book_views(), j);
                        }
                    }
                    lemma_keyed_push(self.pairs@, old_views, pair, book@);
                }
                self.pairs.push(pair);
                self.books.push(book);
                proof {
                    assert(self.book_views() =~= old_views.push(BookView { bids: Seq::empty(), asks: Seq::empty() }));
                }
            },
        }
    }

    /// Removes `pair` and returns its book, or `None` when it has none.
    pub fn remove_trading_pair(&mut self, pair: &TradingPair) -> (r: Option<OrderBook>)
        requires
            old(self).inv(),
        ensures
            final(self).inv(),
            final(self)@.users == old(self)@.users,
            final(self)@.generator == old(self)@.generator,
            final(self)@.books == old(self)@.books.remove(*pair),
            r is Some <==> old(self)@.books.contains_key(*pair),
            r matches Some(b) ==> b@ == old(self)@.books[*pair],
    {
        match self.find_pair(pair) {
            None => {
                proof {
                    assert(self@.books =~= self@.books.remove(*pair));
                }
                None
            },
            Some(i) => {
                let ghost old_views = self.book_views();
                proof {
                    lemma_keyed_remove(self.pairs@, old_views, i as int);
                }
                self.pairs.remove(i);
                let b = self.books.remove(i);
                proof {
                    assert(self.book_views() =~= old_views.remove(i as int));
                }
                Some(b)
            },
        }
    }

    /// Registers `user`, replacing any account with the same ID.
    pub fn add_user(&mut self, user: User)
        requires
            old(self).inv(),
            user@.wf(),
        ensures
            final(self).inv(),
            final(self)@.books == old(self)@.books,
            final(self)@.generator == old(self)@.generator,
            final(self)@.users == old(self)@.users.insert(user@.id, user@),
    {
        let id = user.get_user_id();
        let ghost m0 = self.users@;
        let ghost uv = user@;
        self.users.insert(id, user);
        proof {
            lemma_account_views_insert(m0, id, user);
        }
    }

    /// Removes the account of `user_id` and returns it, or `None` when there is none.
    pub fn remove_user(&mut self, user_id: &UserId) -> (r: Option<User>)
        requires
            old(self).inv(),
        ensures
            final(self).inv(),
            final(self)@.books == old(self)@.books,
            final(self)@.generator == old(self)@.generator,
            final(self)@.users == old(self)@.users.remove(*user_id),
            r is Some <==> old(self)@.users.contains_key(*user_id),
            r matches Some(u) ==> u@ == old(self)@.users[*user_id],
    {
        let ghost m0 = self.users@;
        let r = self.users.remove(user_id);
        proof {
            lemma_account_views_remove(m0, *user_id);
        }
        r
    }

    /// Credits `amount` of `asset` to the account of `user_id`; fails with
    /// "User not found", changing nothing, when there is no such account.
    pub fn deposit(&mut self, user_id: UserId, asset: Asset, amount: Quantity) -> (r: Result<(), String>)
        requires
            old(self).inv(),
            old(self)@.users.contains_key(user_id) ==> old(self)@.users[user_id].balance(asset) + amount
                <= Quantity::MAX,
        ensures
            final(self).inv(),
            final(self)@.books == old(self)@.books,
            final(self)@.generator == old(self)@.generator,
            r is Err <==> !old(self)@.users.contains_key(user_id),
            r matches Err(e) ==> e@ == "User not found"@ && final(self)@.users == old(self)@.users,
            r is Ok ==> final(self)@.users == old(self)@.users.insert(
                user_id,
                old(self)@.users[user_id].credited(asset, amount),
            ),
    {
        let ghost m0 = self.users@;
        match self.users.remove(&user_id) {
            None => {
                proof {
                    assert(self.users@ =~= m0);
                }
                Err(String::from_str("User not found"))
            },
            Some(mut u) => {
                u.add_balance(asset, amount);
                self.users.insert(user_id, u);
                proof {
                    assert(self.users@ =~= m0.insert(user_id, u));
                    lemma_account_views_insert(m0, user_id, u);
                }
                Ok(())
            },
        }
    }

    /// Places `order` for `user_id` on `pair`.
    ///
    /// Locks what the order needs (the quote amount `price * quantity` for a buy, the base
    /// quantity for a sell), then lets the book place it,
    /// passing over the user's own resting orders (no self-trade). Fails with "Lock amount overflow",
    /// "User not found", "Insufficient balance" or "Trading pair not found" (the last with
    /// the lock left in place). `Ok(None)` when the book rejects the order, whose lock is
    /// then released. Otherwise the trades get identifiers from the generator and the
    /// current time, are settled between buyer and seller, and when the order no longer
    /// rests what is still locked for it is released.
    pub fn add_order(&mut self, user_id: UserId, pair: &TradingPair, order: Order) -> (r: Result<
        Option<AddOrderResult>,
        String,
    >)
        requires
            old(self).inv(),
            old(self)@.add_order_fits(user_id, *pair, order, true),
        ensures
            final(self).inv(),
            ({
                let (books, users, outcome) = old(self)@.add_order(user_id, *pair, order, true);
                &&& final(self)@.books == books
                &&& final(self)@.users == users
                &&& match outcome {
                    AddOutcome::Failed(msg) => r matches Err(e) && e@ == msg && final(self)@.generator
                        == old(self)@.generator,
                    AddOutcome::Rejected => r matches Ok(None) && final(self)@.generator == old(self)@.generator,
                    AddOutcome::Placed(trades) => r matches Ok(Some(res)) && res.order_id == order.order_id
                        && (res.trades matches Some(ts) && stamped_by(
                        old(self)@.generator,
                        final(self)@.generator,
                        trades,
                        ts@,
                    )),
                }
            }),
    {
        self.place_order(user_id, pair, order, true)
    }

    /// Places `order` as [`CoreEngine::add_order`] does, passing over the user's own
    /// resting orders only when `skip_own`.
    pub(crate) fn place_order(&mut self, user_id: UserId, pair: &TradingPair, order: Order, skip_own: bool) -> (r: Result<
        Option<AddOrderResult>,
        String,
    >)
        requires
            old(self).inv(),
            old(self)@.add_order_fits(user_id, *pair, order, skip_own),
        ensures
            final(self).inv(),
            ({
                let (books, users, outcome) = old(self)@.add_order(user_id, *pair, order, skip_own);
                &&& final(self)@.books == books
                &&& final(self)@.users == users
                &&& match outcome {
                    AddOutcome::Failed(msg) => r matches Err(e) && e@ == msg && final(self)@.generator
                        == old(self)@.generator,
                    AddOutcome::Rejected => r matches Ok(None) && final(self)@.generator == old(self)@.generator,
                    AddOutcome::Placed(trades) => r matches Ok(Some(res)) && res.order_id == order.order_id
                        && (res.trades matches Some(ts) && stamped_by(
                        old(self)@.generator,
                        final(self)@.generator,
                        trades,
                        ts@,
                    )),
                }
            }),
    {
        let ghost e0 = self@;
        let order_id = order.order_id;
        let (lock_asset, lock_amount) = match order.side {
            Side::Buy => {
                let p = order.price as u32;
                match p.checked_mul(order.initial_quantity) {
                    Some(a) => (pair.quote, a),
                    None => return Err(String::from_str("Lock amount overflow")),
                }
            },
            Side::Sell => (pair.base, order.initial_quantity),
        };
        proof {
            assert(lock_request(*pair, order) == Some((lock_asset, lock_amount)));
        }
        match self.users.get(&user_id) {
            None => return Err(String::from_str("User not found")),
            Some(u) => {
                if u.get_available_balance(&lock_asset) < lock_amount {
                    return Err(String::from_str("Insufficient balance"));
                }
            },
        }
        let bi = match self.find_pair(pair) {
            None => return Err(String::from_str("Trading pair not found")),
            Some(i) => i,
        };
        if !self.books[bi].accepts(&order) {
            return Ok(None);
        }
        match self.lock_for(user_id, order_id, lock_asset, lock_amount) {
            Ok(()) => {},
            Err(e) => return Err(e),
        }
        let ghost users1 = self@.users;
        proof {
            assert(users1 == e0.users_after_lock(user_id, *pair, order));
            self.lemma_inv_wf();
            assert(self@.users.contains_key(user_id));
            assert(users1[user_id].wf());
            lemma_locked_for_entry(e0.users[user_id], order_id, lock_asset, lock_amount);
        }
        let ghost books0 = self.book_views();
        let placed = self.books[bi].place(order, skip_own);
        let ghost nbv = self.books@[bi as int]@;
        proof {
            lemma_keyed_update(self.pairs@, books0, bi as int, nbv);
            assert(self.book_views() =~= books0.update(bi as int, nbv));
        }
        match placed {
            None => {
                proof {
                    assert(false);
                }
                Ok(None)
            },
            Some(mut trades) => {
                let ghost st = trades@;
                let n = trades.len();
                let ghost g0 = self.id_generator@;
                let ghost mut gs: Seq<GeneratorView> = seq![g0];
                let mut j: usize = 0;
                while j < n
                    invariant
                        self.inv(),
                        self@.books == e0.books.insert(*pair, nbv),
                        bi < self.books@.len(),
                        self.books@[bi as int]@ == nbv,
                        self@.users == users1,
                        n == trades.len(),
                        st.len() == n,
                        j <= n,
                        forall|i: int|
                            0 <= i < n ==> (#[trigger] trades@[i]).bid_trade == st[i].bid_trade && trades@[i].ask_trade
                                == st[i].ask_trade,
                        gs.len() == j + 1,
                        gs[0] == g0,
                        gs.last() == self.id_generator@,
                        forall|i: int| 0 <= i < j ==> (#[trigger] gs[i]).steps_to(gs[i + 1]),
                        forall|i: int| 0 <= i < j ==> (#[trigger] trades@[i]).trade_id == gs[i + 1].last_id(),
                        forall|i: int| 0 <= i < gs.len() ==> (#[trigger] gs[i]).wf(),
                    decreases n - j,
                {
                    let id = self.id_generator.next_id();
                    let ts = unix_nanos();
                    trades[j].set_trade_id(id);
                    trades[j].set_timestamp(ts);
                    proof {
                        gs = gs.push(self.id_generator@);
                    }
                    j = j + 1;
                }
                proof {
                    assert(stamped_by(g0, self.id_generator@, st, trades@));
                }
                let ghost g_end = self.id_generator@;
                let side = order.side;
                let mut i: usize = 0;
                proof {
                    assert(st.take(0) =~= Seq::<Trade>::empty());
                }
                while i < n
                    invariant
                        self.inv(),
                        self@.books == e0.books.insert(*pair, nbv),
                        bi < self.books@.len(),
                        self.books@[bi as int]@ == nbv,
                        self.id_generator@ == g_end,
                        n == trades.len(),
                        st.len() == n,
                        i <= n,
                        forall|k: int|
                            0 <= k < n ==> (#[trigger] trades@[k]).bid_trade == st[k].bid_trade && trades@[k].ask_trade
                                == st[k].ask_trade,
                        settle_fits(users1, *pair, side, st),
                        self@.users == settle(users1, *pair, side, st.take(i as int)),
                    decreases n - i,
                {
                    let t = trades[i];
                    proof {
                        lemma_settle_fits_prefix(users1, *pair, side, st, i + 1);
                        assert(st.take(i + 1).drop_last() =~= st.take(i as int));
                        assert(st.take(i + 1).last() == st[i as int]);
                    }
                    let qty = t.bid_trade.quantity;
                    let price = match side {
                        Side::Buy => t.ask_trade.price,
                        Side::Sell => t.bid_trade.price,
                    };
                    let quote = (price as u32) * qty;
                    proof {
                        assert(quote == quote_amount(side, st[i as int]));
                    }
                    self.apply_fill_for(t.bid_trade.user_id, t.bid_trade.order_id, pair.quote, quote, pair.base, qty);
                    proof {
                        assert(self@.users == settle_buyer(settle(users1, *pair, side, st.take(i as int)), *pair, side, st[i as int]));
                    }
                    self.apply_fill_for(t.ask_trade.user_id, t.ask_trade.order_id, pair.base, qty, pair.quote, quote);
                    i = i + 1;
                }
                proof {
                    assert(st.take(n as int) =~= st);
                }
                if !self.books[bi].has_order(&order_id) {
                    self.unlock_for(user_id, order_id);
                }
                Ok(Some(AddOrderResult { order_id, trades: Some(trades) }))
            },
        }
    }

    /// Cancels order `order_id` on `pair`: `false` when the pair or the order is missing;
    /// otherwise the order leaves the book and, when its owner exists, its lock is
    /// released and the answer is whether it had one (`true` when the owner does not exist).
    pub fn cancel_order(&mut self, pair: &TradingPair, order_id: &OrderId) -> (r: bool)
        requires
            old(self).inv(),
            old(self)@.cancel_order_fits(*pair, *order_id),
        ensures
            final(self).inv(),
            final(self)@.generator == old(self)@.generator,
            (final(self)@.books, final(self)@.users, r) == old(self)@.cancel_order(*pair, *order_id),
    {
        let ghost e0 = self@;
        let bi = match self.find_pair(pair) {
            None => return false,
            Some(i) => i,
        };
        let ghost books0 = self.book_views();
        let placed = self.books[bi].cancel_order(order_id);
        let ghost nbv = self.books@[bi as int]@;
        proof {
            lemma_keyed_update(self.pairs@, books0, bi as int, nbv);
            assert(self.book_views() =~= books0.update(bi as int, nbv));
        }
        match placed {
            None => {
                proof {
                    assert(self.book_views() =~= books0);
                }
                false
            },
            Some(o) => {
                let owner = o.user_id;
                if self.users.contains_key(&owner) {
                    self.unlock_for(owner, *order_id)
                } else {
                    true
                }
            },
        }
    }

    /// Replaces the order named by `modify_order` on `pair`: cancels it, takes a fresh
    /// identifier from the generator, and places under it a new order of the same type
    /// and owner with the new side, price, quantity and status (as
    /// [`CoreEngine::add_order`] does). `None`, changing nothing, when the pair or the
    /// order is missing; `None` also when the new order fails or is rejected.
    pub fn modify_order(&mut self, pair: &TradingPair, modify_order: OrderModify) -> (r: Option<AddOrderResult>)
        requires
            old(self).inv(),
            old(self)@.modify_order_fits(*pair, modify_order, true),
        ensures
            final(self).inv(),
            !(old(self)@.books.contains_key(*pair) && old(self)@.books[*pair].contains(modify_order.order_id)) ==> r is None
                && final(self)@ == old(self)@,
            old(self)@.books.contains_key(*pair) && old(self)@.books[*pair].contains(modify_order.order_id) ==> exists|
                ts: u64,
                g1: GeneratorView,
            |
                #![trigger replacement(modify_order, old(self)@.books[*pair].order_type_of(modify_order.order_id).unwrap(), ts), old(self)@.generator.steps_to(g1)]
                {
                    let o = with_id(
                        replacement(
                            modify_order,
                            old(self)@.books[*pair].order_type_of(modify_order.order_id).unwrap(),
                            ts,
                        ),
                        g1.last_id(),
                    );
                    let (books, users, outcome) = old(self)@.after_cancel(*pair, modify_order.order_id).add_order(
                        modify_order.user_id,
                        *pair,
                        o,
                        true,
                    );
                    &&& old(self)@.generator.steps_to(g1)
                    &&& g1.wf()
                    &&& (old(self)@.generator.last_timestamp >= EPOCH && modify_order.order_id
                        <= old(self)@.generator.last_id() && g1.last_timestamp < TIMESTAMP_LIMIT ==> g1.last_id()
                        != modify_order.order_id)
                    &&& final(self)@.books == books
                    &&& final(self)@.users == users
                    &&& match outcome {
                        AddOutcome::Placed(trades) => r matches Some(res) && res.order_id == g1.last_id() && (
                        res.trades matches Some(ts) && stamped_by(g1, final(self)@.generator, trades, ts@)),
                        _ => r is None && final(self)@.generator == g1,
                    }
                },
    {
        let order_id = modify_order.get_order_id();
        let user_id = modify_order.get_user_id();
        let order_type = match self.get_order_type(pair, &order_id) {
            None => return None,
            Some(t) => t,
        };
        self.cancel_order(pair, &order_id);
        let ghost e1 = self@;
        let new_id = self.next_id();
        let ghost g1 = self@.generator;
        proof {
            let g0 = old(self)@.generator;
            if g0.last_timestamp >= EPOCH && order_id <= g0.last_id() && g1.last_timestamp < TIMESTAMP_LIMIT {
                law_fresh_id_differs(g0, g1, order_id);
            }
        }
        let new_order = Order::new(
            new_id,
            order_type,
            modify_order.get_side(),
            modify_order.get_status(),
            modify_order.get_price(),
            modify_order.get_quantity(),
            user_id,
        );
        let ghost rep = replacement(modify_order, order_type, new_order.timestamp);
        proof {
            assert(new_order == with_id(rep, new_id));
        }
        match self.add_order(user_id, pair, new_order) {
            Ok(Some(res)) => Some(res),
            _ => None,
        }
    }

    /// Returns the number of resting orders of `pair`, or `None` when it has no book.
    pub fn size(&self, pair: &TradingPair) -> (r: Option<usize>)
        requires
            self.inv(),
            self@.books.contains_key(*pair) ==> self@.books[*pair].size() <= usize::MAX,
        ensures
            r is Some <==> self@.books.contains_key(*pair),
            r matches Some(n) ==> n == self@.books[*pair].size(),
    {
        match self.find_pair(pair) {
            None => None,
            Some(i) => Some(self.books[i].size()),
        }
    }

    /// Returns a depth snapshot of the book of `pair`, or `None` when it has no book.
    pub fn get_order_info(&self, pair: &TradingPair) -> (r: Option<OrderBookLevelInfo>)
        requires
            self.inv(),
            self@.books.contains_key(*pair) ==> self@.books[*pair].depth_fits(),
        ensures
            r is Some <==> self@.books.contains_key(*pair),
            r matches Some(info) ==> info.bids() == self@.books[*pair].bid_levels() && info.asks()
                == self@.books[*pair].ask_levels(),
    {
        match self.find_pair(pair) {
            None => None,
            Some(i) => Some(self.books[i].get_order_info()),
        }
    }

    /// Returns whether a depth snapshot of `pair` can be taken: `true` when it has no
    /// book, or when every level total of its book fits a `Quantity`.
    pub fn depth_fits(&self, pair: &TradingPair) -> (b: bool)
        requires
            self.inv(),
        ensures
            b == (self@.books.contains_key(*pair) ==> self@.books[*pair].depth_fits()),
    {
        match self.find_pair(pair) {
            None => true,
            Some(i) => self.books[i].depth_fits(),
        }
    }

    /// Returns the type of order `order_id` resting in the book of `pair`, if any.
    pub fn get_order_type(&self, pair: &TradingPair, order_id: &OrderId) -> (r: Option<OrderType>)
        requires
            self.inv(),
        ensures
            !self@.books.contains_key(*pair) ==> r is None,
            self@.books.contains_key(*pair) ==> r == self@.books[*pair].order_type_of(*order_id),
    {
        match self.find_pair(pair) {
            None => None,
            Some(i) => self.books[i].get_order_type(order_id),
        }
    }

    /// Returns the balances of `user_id`, as `(asset, (balance, locked))` for each asset
    /// with a non-zero balance or locked amount, in the order ETH, SOL, BTC, USDC, USDT;
    /// `None` when there is no such account.
    pub fn get_user_balance(&self, user_id: &UserId) -> (r: Option<Vec<(Asset, (Quantity, Quantity))>>)
        requires
            self.inv(),
        ensures
            r is Some <==> self@.users.contains_key(*user_id),
            r matches Some(v) ==> v@ == balance_report(self@.users[*user_id], ASSET_COUNT as int),
    {
        let user = match self.users.get(user_id) {
            None => return None,
            Some(u) => u,
        };
        let mut out: Vec<(Asset, (Quantity, Quantity))> = Vec::new();
        let mut k: usize = 0;
        while k < ASSET_COUNT
            invariant
                k <= ASSET_COUNT,
                user@.wf(),
                out@ == balance_report(user@, k as int),
            decreases ASSET_COUNT - k,
        {
            let asset = asset_from_slot(k);
            let bal = user.get_balance(&asset);
            let locked = user.get_locked(&asset);
            if bal > 0 || locked > 0 {
                out.push((asset, (bal, locked)));
            }
            k = k + 1;
        }
        Some(out)
    }
}

impl Default for CoreEngine {
    /// An engine as [`CoreEngine::new`] creates it.
    fn default() -> (e: Self)
        ensures
            e.inv(),
            e@.books == Map::<TradingPair, BookView>::empty(),
            e@.users == Map::<UserId, UserView>::empty(),
            e@.generator.machine_id == 1 && e@.generator.datacenter_id == 1,
            e@.generator.sequence == 0 && e@.generator.last_timestamp == 0,
    {
        Self::new()
    }
}

/// The balance report of account `u` over the first `n` assets of the order ETH, SOL,
/// BTC, USDC, USDT: `(asset, (balance, locked))` for each with a non-zero balance or
/// locked amount.
pub open spec fn balance_report(u: UserView, n: int) -> Seq<(Asset, (Quantity, Quantity))>
    decreases n,
{
    if n <= 0 {
        Seq::empty()
    } else {
        let a = crate::types::asset_at(n - 1);
        let r = balance_report(u, n - 1);
        if u.balance(a) > 0 || u.locked(a) > 0 {
            r.push((a, (u.balance(a), u.locked(a) as Quantity)))
        } else {
            r
        }
    }
}

/// Whether the report `r` has an entry for asset `a`.
pub open spec fn reports(r: Seq<(Asset, (Quantity, Quantity))>, a: Asset) -> bool {
    exists|i: int| 0 <= i < r.len() && r[i].0 == a
}

/// The report over the first `n` assets lists an asset exactly when it is among them and
/// its balance or locked total is non-zero, with that balance and locked total, in the
/// fixed asset order.
proof fn lemma_balance_report(u: UserView, n: int)
    requires
        u.wf(),
        0 <= n <= ASSET_COUNT,
    ensures
        forall|a: Asset|
            #[trigger] reports(balance_report(u, n), a) <==> (crate::types::asset_index(a) < n && (u.balance(a) > 0
                || u.locked(a) > 0)),
        forall|i: int|
            0 <= i < balance_report(u, n).len() ==> (#[trigger] balance_report(u, n)[i]).1.0 == u.balance(
                balance_report(u, n)[i].0,
            ) && balance_report(u, n)[i].1.1 == u.locked(balance_report(u, n)[i].0),
        forall|i: int, j: int|
            0 <= i < j < balance_report(u, n).len() ==> crate::types::asset_index(
                (#[trigger] balance_report(u, n)[i]).0,
            ) < crate::types::asset_index((#[trigger] balance_report(u, n)[j]).0),
        forall|i: int|
            0 <= i < balance_report(u, n).len() ==> crate::types::asset_index((#[trigger] balance_report(u, n)[i]).0)
                < n,
    decreases n,
{
    if n > 0 {
        lemma_balance_report(u, n - 1);
        let a = crate::types::asset_at(n - 1);
        assert(crate::types::asset_index(a) == n - 1);
        assert(u.locked(a) <= Quantity::MAX);
        let r = balance_report(u, n - 1);
        let l = balance_report(u, n);
        assert forall|x: Asset| #[trigger] reports(l, x) <==> (crate::types::asset_index(x) < n && (u.balance(x) > 0
            || u.locked(x) > 0)) by {
            crate::types::lemma_asset_index_bijective(x, a);
            if u.balance(a) > 0 || u.locked(a) > 0 {
                assert(l == r.push((a, (u.balance(a), u.locked(a) as Quantity))));
                if reports(l, x) {
                    let i = choose|i: int| 0 <= i < l.len() && l[i].0 == x;
                    if i < r.len() {
                        assert(r[i] == l[i]);
                        assert(reports(r, x));
                    }
                }
                if crate::types::asset_index(x) < n && (u.balance(x) > 0 || u.locked(x) > 0) {
                    if x == a {
                        assert(l[r.len() as int].0 == x);
                    } else {
                        assert(reports(r, x));
                        let i = choose|i: int| 0 <= i < r.len() && r[i].0 == x;
                        assert(l[i] == r[i]);
                    }
                }
            } else {
                assert(l == r);
            }
        }
    }
}

/// A balance report (as `get_user_balance` gives it) lists an asset exactly when the
/// account's balance or locked total of it is non-zero, with that balance and locked
/// total, at most once, in the order ETH, SOL, BTC, USDC, USDT.
pub proof fn law_balance_report(u: UserView)
    requires
        u.wf(),
    ensures
        forall|a: Asset| #[trigger] reports(balance_report(u, ASSET_COUNT as int), a) <==> (u.balance(a) > 0 || u.locked(a) > 0),
        forall|i: int|
            0 <= i < balance_report(u, ASSET_COUNT as int).len() ==> (#[trigger] balance_report(u, ASSET_COUNT as int)[i]).1
                == (u.balance(balance_report(u, ASSET_COUNT as int)[i].0), u.locked(balance_report(u, ASSET_COUNT as int)[i].0) as Quantity)
                && u.locked(balance_report(u, ASSET_COUNT as int)[i].0) <= Quantity::MAX,
        forall|i: int, j: int|
            0 <= i < j < balance_report(u, ASSET_COUNT as int).len() ==> crate::types::asset_index(
                (#[trigger] balance_report(u, ASSET_COUNT as int)[i]).0,
            ) < crate::types::asset_index((#[trigger] balance_report(u, ASSET_COUNT as int)[j]).0),
{
    lemma_balance_report(u, ASSET_COUNT as int);
    assert forall|a: Asset| #[trigger] reports(balance_report(u, ASSET_COUNT as int), a) <==> (u.balance(a) > 0 || u.locked(a) > 0) by {
        crate::types::lemma_asset_index_bijective(a, a);
    }
    assert forall|i: int| 0 <= i < balance_report(u, ASSET_COUNT as int).len() implies u.locked(
        (#[trigger] balance_report(u, ASSET_COUNT as int)[i]).0,
    ) <= Quantity::MAX by {
        assert(u.locked(balance_report(u, ASSET_COUNT as int)[i].0) <= Quantity::MAX);
    }
}

} // verus!
