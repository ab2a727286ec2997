//! The top-level facade: an engine that gives every order a fresh identifier.

use vstd::prelude::*;

use crate::engine::{balance_report, AddOrderResult, CoreEngine};
use crate::engine_model::{stamped_by, with_id, AddOutcome, EngineView};
use crate::level_info::OrderBookLevelInfo;
use crate::order::Order;
use crate::order_modify::OrderModify;
use crate::orderbook::{replacement, OrderBook};
use crate::snowflake::GeneratorView;
use crate::trading_pair::TradingPair;
use crate::types::{Asset, OrderId, Quantity, UserId, ASSET_COUNT};
use crate::users::User;
use crate::book_model::BookView;
use crate::users::UserView;

verus! {

/// The matching engine facade: order books, accounts and a generator that stamps each
/// new order with a fresh identifier.
#[derive(Debug)]
pub struct Engine {
    core: CoreEngine,
}

impl View for Engine {
    type V = EngineView;

    closed spec fn view(&self) -> EngineView {
        self.core@
    }
}

impl Engine {
    /// The invariant of the engine.
    pub closed spec fn inv(&self) -> bool {
        self.core.inv()
    }

    /// The invariant makes the abstract state well formed: every book and every account
    /// is well formed, each account under its own ID, and the generator is in range.
    pub proof fn lemma_inv_wf(&self)
        requires
            self.inv(),
        ensures
            self@.wf(),
    {
        self.core.lemma_inv_wf();
    }

    /// Creates an engine with no pairs and no users, and a generator for machine 1 of
    /// datacenter 1.
    pub fn new() -> (e: Self)
        ensures
            e.inv(),
            e@.books == Map::<TradingPair, BookView>::empty(),
            e@.users == Map::<UserId, UserView>::empty(),
            e@.generator.machine_id == 1 && e@.generator.datacenter_id == 1,
            e@.generator.sequence == 0 && e@.generator.last_timestamp == 0,
    {
        Engine { core: CoreEngine::new() }
    }

    /// Registers `pair` with an empty book; does nothing when it already has one.
    pub fn add_trading_pair(&mut self, pair: TradingPair)
        requires
            old(self).inv(),
        ensures
            final(self).inv(),
            final(self)@.users == old(self)@.users,
            final(self)@.generator == old(self)@.generator,
            old(self)@.books.contains_key(pair) ==> final(self)@.books == old(self)@.books,
            !old(self)@.books.contains_key(pair) ==> final(self)@.books == old(self)@.books.insert(
                pair,
                BookView { bids: Seq::empty(), asks: Seq::empty() },
            ),
    {
        self.core.add_trading_pair(pair)
    }

    /// Removes `pair` and returns its book, or `None` when it has none.
    pub fn remove_trading_pair(&mut self, pair: &TradingPair) -> (r: Option<OrderBook>)
        requires
            old(self).inv(),
        ensures
            final(self).inv(),
            final(self)@.users == old(self)@.users,
            final(self)@.generator == old(self)@.generator,
            final(self)@.books == old(self)@.books.remove(*pair),
            r is Some <==> old(self)@.books.contains_key(*pair),
            r matches Some(b) ==> b@ == old(self)@.books[*pair],
    {
        self.core.remove_trading_pair(pair)
    }

    /// Registers `user`, replacing any account with the same ID.
    pub fn add_user(&mut self, user: User)
        requires
            old(self).inv(),
            user@.wf(),
        ensures
            final(self).inv(),
            final(self)@.books == old(self)@.books,
            final(self)@.generator == old(self)@.generator,
            final(self)@.users == old(self)@.users.insert(user@.id, user@),
    {
        self.core.add_user(user)
    }

    /// Removes the account of `user_id` and returns it, or `None` when there is none.
    pub fn remove_user(&mut self, user_id: &UserId) -> (r: Option<User>)
        requires
            old(self).inv(),
        ensures
            final(self).inv(),
            final(self)@.books == old(self)@.books,
            final(self)@.generator == old(self)@.generator,
            final(self)@.users == old(self)@.users.remove(*user_id),
            r is Some <==> old(self)@.users.contains_key(*user_id),
            r matches Some(u) ==> u@ == old(self)@.users[*user_id],
    {
        self.core.remove_user(user_id)
    }

    /// Credits `amount` of `asset` to the account of `user_id`; fails with
    /// "User not found", changing nothing, when there is no such account.
    pub fn deposit(&mut self, user_id: UserId, asset: Asset, amount: Quantity) -> (r: Result<(), String>)
        requires
            old(self).inv(),
            old(self)@.users.contains_key(user_id) ==> old(self)@.users[user_id].balance(asset) + amount
                <= Quantity::MAX,
        ensures
            final(self).inv(),
            final(self)@.books == old(self)@.books,
            final(self)@.generator == old(self)@.generator,
            r is Err <==> !old(self)@.users.contains_key(user_id),
            r matches Err(e) ==> e@ == "User not found"@ && final(self)@.users == old(self)@.users,
            r is Ok ==> final(self)@.users == old(self)@.users.insert(
                user_id,
                old(self)@.users[user_id].credited(asset, amount),
            ),
    {
        self.core.deposit(user_id, asset, amount)
    }

    /// Returns the balances of `user_id`, as `(asset, (balance, locked))` for each asset
    /// with a non-zero balance or locked amount; `None` when there is no such account.
    pub fn get_user_balance(&self, user_id: &UserId) -> (r: Option<Vec<(Asset, (Quantity, Quantity))>>)
        requires
            self.inv(),
        ensures
            r is Some <==> self@.users.contains_key(*user_id),
            r matches Some(v) ==> v@ == balance_report(self@.users[*user_id], ASSET_COUNT as int),
    {
        self.core.get_user_balance(user_id)
    }

    /// Places `order` for `user_id` on `pair` under a fresh identifier from the generator,
    /// as [`CoreEngine::add_order`] does with the order's own ID, except that the order
    /// may trade with resting orders of its own user.
    pub fn add_order(&mut self, user_id: UserId, pair: &TradingPair, order: Order) -> (r: Result<
        Option<AddOrderResult>,
        String,
    >)
        requires
            old(self).inv(),
            forall|id: OrderId| #[trigger] old(self)@.add_order_fits(user_id, *pair, with_id(order, id), false),
        ensures
            final(self).inv(),
            exists|g1: GeneratorView|
                #![trigger old(self)@.generator.steps_to(g1)]
                {
                    let o = with_id(order, g1.last_id());
                    let (books, users, outcome) = old(self)@.add_order(user_id, *pair, o, false);
                    &&& old(self)@.generator.steps_to(g1)
                    &&& final(self)@.books == books
                    &&& final(self)@.users == users
                    &&& match outcome {
                        AddOutcome::Failed(msg) => r matches Err(e) && e@ == msg && final(self)@.generator == g1,
                        AddOutcome::Rejected => r matches Ok(None) && final(self)@.generator == g1,
                        AddOutcome::Placed(trades) => r matches Ok(Some(res)) && res.order_id == g1.last_id() && (
                        res.trades matches Some(ts) && stamped_by(g1, final(self)@.generator, trades, ts@)),
                    }
                },
    {
        let ghost orig = order;
        let mut order = order;
        let ghost e0 = self@;
        let order_id = self.core.next_id();
        order.set_order_id(order_id);
        proof {
            assert(order == with_id(orig, order_id));
            assert(e0.add_order_fits(user_id, *pair, with_id(orig, order_id), false));
            assert(self@.add_order_fits(user_id, *pair, order, false));
        }
        let ghost g1 = self@.generator;
        let r = self.core.place_order(user_id, pair, order, false);
        proof {
            assert(old(self)@.generator.steps_to(g1));
        }
        r
    }

    /// Cancels order `order_id` on `pair`, as [`CoreEngine::cancel_order`] does.
    pub fn cancel_order(&mut self, pair: &TradingPair, order_id: &OrderId) -> (r: bool)
        requires
            old(self).inv(),
            old(self)@.cancel_order_fits(*pair, *order_id),
        ensures
            final(self).inv(),
            final(self)@.generator == old(self)@.generator,
            (final(self)@.books, final(self)@.users, r) == old(self)@.cancel_order(*pair, *order_id),
    {
        self.core.cancel_order(pair, order_id)
    }

    /// Replaces the order named by `modify_order` on `pair`: cancels it, takes one
    /// identifier from the generator, and places a new order of the same type and owner
    /// with the new side, price, quantity and status under a fresh identifier (as
    /// [`Engine::add_order`] does). `None`, changing nothing, when the pair or the order is
    /// missing; `None` also when the new order fails or is rejected.
    pub fn modify_order(&mut self, pair: &TradingPair, modify_order: OrderModify) -> (r: Option<AddOrderResult>)
        requires
            old(self).inv(),
            old(self)@.cancel_order_fits(*pair, modify_order.order_id),
            old(self)@.books.contains_key(*pair) && old(self)@.books[*pair].contains(modify_order.order_id) ==> forall|
                ts: u64,
                id: OrderId,
            |
                #![trigger replacement(modify_order, old(self)@.books[*pair].order_type_of(modify_order.order_id).unwrap(), ts), with_id(replacement(modify_order, old(self)@.books[*pair].order_type_of(modify_order.order_id).unwrap(), ts), id)]
                old(self)@.after_cancel(*pair, modify_order.order_id).add_order_fits(
                    modify_order.user_id,
                    *pair,
                    with_id(
                        replacement(
                            modify_order,
                            old(self)@.books[*pair].order_type_of(modify_order.order_id).unwrap(),
                            ts,
                        ),
                        id,
                    ),
                    false,
                ),
        ensures
            final(self).inv(),
            !(old(self)@.books.contains_key(*pair) && old(self)@.books[*pair].contains(modify_order.order_id)) ==> r is None
                && final(self)@ == old(self)@,
            old(self)@.books.contains_key(*pair) && old(self)@.books[*pair].contains(modify_order.order_id) ==> exists|
                ts: u64,
                g1: GeneratorView,
                g2: GeneratorView,
            |
                #![trigger replacement(modify_order, old(self)@.books[*pair].order_type_of(modify_order.order_id).unwrap(), ts), old(self)@.generator.steps_to(g1), g1.steps_to(g2)]
                {
                    let o = with_id(
                        replacement(
                            modify_order,
                            old(self)@.books[*pair].order_type_of(modify_order.order_id).unwrap(),
                            ts,
                        ),
                        g2.last_id(),
                    );
                    let (books, users, outcome) = old(self)@.after_cancel(*pair, modify_order.order_id).add_order(
                        modify_order.user_id,
                        *pair,
                        o,
                        false,
                    );
                    &&& old(self)@.generator.steps_to(g1)
                    &&& g1.steps_to(g2)
                    &&& final(self)@.books == books
                    &&& final(self)@.users == users
                    &&& match outcome {
                        AddOutcome::Placed(trades) => r matches Some(res) && res.order_id == g2.last_id() && (
                        res.trades matches Some(ts) && stamped_by(g2, final(self)@.generator, trades, ts@)),
                        _ => r is None && final(self)@.generator == g2,
                    }
                },
    {
        let order_id = modify_order.get_order_id();
        let user_id = modify_order.get_user_id();
        let order_type = match self.core.get_order_type(pair, &order_id) {
            None => return None,
            Some(t) => t,
        };
        self.core.cancel_order(pair, &order_id);
        let ghost e1 = self@;
        let new_id = self.core.next_id();
        let ghost g1 = self@.generator;
        let new_order = Order::new(
            new_id,
            order_type,
            modify_order.get_side(),
            modify_order.get_status(),
            modify_order.get_price(),
            modify_order.get_quantity(),
            user_id,
        );
        let ghost rep = replacement(modify_order, order_type, new_order.timestamp);
        proof {
            assert(new_order == with_id(rep, new_id));
            assert forall|id: OrderId| #[trigger] self@.add_order_fits(user_id, *pair, with_id(new_order, id), false) by {
                assert(with_id(new_order, id) == with_id(rep, id));
            }
        }
        let r = self.add_order(user_id, pair, new_order);
        proof {
            let g2 = choose|g2: GeneratorView| #![trigger g1.steps_to(g2)] {
                let o = with_id(new_order, g2.last_id());
                let (books, users, outcome) = e1.add_order(user_id, *pair, o, false);
                &&& g1.steps_to(g2)
                &&& self@.books == books
                &&& self@.users == users
                &&& match outcome {
                    AddOutcome::Failed(msg) => r matches Err(e) && e@ == msg && self@.generator == g2,
                    AddOutcome::Rejected => r matches Ok(None) && self@.generator == g2,
                    AddOutcome::Placed(trades) => r matches Ok(Some(res)) && res.order_id == g2.last_id() && (
                    res.trades matches Some(ts) && stamped_by(g2, self@.generator, trades, ts@)),
                }
            };
            assert(with_id(new_order, g2.last_id()) == with_id(rep, g2.last_id()));
            assert(old(self)@.generator.steps_to(g1));
        }
        match r {
            Ok(Some(res)) => Some(res),
            _ => None,
        }
    }

    /// Returns a depth snapshot of the book of `pair`, or `None` when it has no book.
    pub fn get_order_info(&self, pair: &TradingPair) -> (r: Option<OrderBookLevelInfo>)
        requires
            self.inv(),
            self@.books.contains_key(*pair) ==> self@.books[*pair].depth_fits(),
        ensures
            r is Some <==> self@.books.contains_key(*pair),
            r matches Some(info) ==> info.bids() == self@.books[*pair].bid_levels() && info.asks()
                == self@.books[*pair].ask_levels(),
    {
        self.core.get_order_info(pair)
    }

    /// Returns the number of resting orders of `pair`, or `None` when it has no book.
    pub fn size(&self, pair: &TradingPair) -> (r: Option<usize>)
        requires
            self.inv(),
            self@.books.contains_key(*pair) ==> self@.books[*pair].size() <= usize::MAX,
        ensures
            r is Some <==> self@.books.contains_key(*pair),
            r matches Some(n) ==> n == self@.books[*pair].size(),
    {
        self.core.size(pair)
    }
}

} // verus!
