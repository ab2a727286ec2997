//! User accounts: balances per asset and the amounts locked for open orders.

use vstd::prelude::*;

use crate::types::{asset_index, asset_slot, lemma_asset_index_bijective, Asset, OrderId, Quantity, UserId, ASSET_COUNT};

verus! {

/// The amount of one asset locked for one order.
#[derive(Debug, Clone, Copy, PartialEq, Eq, Structural)]
pub struct LockEntry {
    pub asset: Asset,
    pub amount: Quantity,
}

/// A user account.
///
/// `balances` holds, per asset, what the user can still lock (locking moves an
/// amount out of it into a lock entry); each open order of the user has at most one
/// lock entry.
#[derive(Debug)]
pub struct User {
    id: UserId,
    locked_orders: Vec<(OrderId, LockEntry)>,
    balances: Vec<Quantity>,
}

/// The abstract state of a user account.
pub struct UserView {
    pub id: UserId,
    /// Balance per asset, indexed by `asset_index`.
    pub balances: Seq<Quantity>,
    /// Lock entries by order, oldest first.
    pub locks: Seq<(OrderId, LockEntry)>,
}

/// What the lock entry `p` contributes to the locked total of asset `a`.
pub open spec fn contribution(p: (OrderId, LockEntry), a: Asset) -> nat {
    if p.1.asset == a {
        p.1.amount as nat
    } else {
        0
    }
}

/// The total amount of asset `a` locked by the entries of `locks`.
pub open spec fn locked_sum(locks: Seq<(OrderId, LockEntry)>, a: Asset) -> nat
    decreases locks.len(),
{
    if locks.len() == 0 {
        0
    } else {
        locked_sum(locks.drop_last(), a) + contribution(locks.last(), a)
    }
}

impl UserView {
    /// The balance of asset `a`.
    pub open spec fn balance(self, a: Asset) -> Quantity {
        self.balances[asset_index(a)]
    }

    /// The total amount of asset `a` locked for orders.
    pub open spec fn locked(self, a: Asset) -> nat {
        locked_sum(self.locks, a)
    }

    /// What can still be locked of asset `a`: the balance, since locking moves amounts
    /// out of it.
    pub open spec fn available(self, a: Asset) -> nat {
        self.balance(a) as nat
    }

    /// Whether locking `amount` of `a` for order `id` keeps the locked total of `a`
    /// within a `Quantity`.
    pub open spec fn lock_fits(self, id: OrderId, a: Asset, amount: Quantity) -> bool {
        self.locked_for(id, a, amount).locked(a) <= Quantity::MAX
    }

    /// Whether order `id` has a lock entry.
    pub open spec fn has_lock(self, id: OrderId) -> bool {
        exists|i: int| 0 <= i < self.locks.len() && self.locks[i].0 == id
    }

    /// The position of the lock entry of order `id` (meaningful when it has one).
    pub open spec fn lock_pos(self, id: OrderId) -> int {
        choose|i: int| 0 <= i < self.locks.len() && self.locks[i].0 == id
    }

    /// The lock entry of order `id` (meaningful when it has one).
    pub open spec fn lock_entry(self, id: OrderId) -> LockEntry {
        self.locks[self.lock_pos(id)].1
    }

    /// The account with `amount` more of asset `a`.
    pub open spec fn credited(self, a: Asset, amount: Quantity) -> UserView {
        UserView {
            balances: self.balances.update(asset_index(a), (self.balance(a) + amount) as Quantity),
            ..self
        }
    }

    /// The account after `amount` of `a` is locked for order `id`: the balance drops by
    /// `amount` and the lock entry of `id` becomes `(a, amount)`, replacing any earlier one.
    pub open spec fn locked_for(self, id: OrderId, a: Asset, amount: Quantity) -> UserView {
        let e = LockEntry { asset: a, amount };
        UserView {
            id: self.id,
            balances: self.balances.update(asset_index(a), (self.balance(a) - amount) as Quantity),
            locks: if self.has_lock(id) {
                self.locks.update(self.lock_pos(id), (id, e))
            } else {
                self.locks.push((id, e))
            },
        }
    }

    /// The account after the lock entry of order `id` is released back to the balance.
    pub open spec fn unlocked(self, id: OrderId) -> UserView {
        let e = self.lock_entry(id);
        UserView {
            id: self.id,
            balances: self.balances.update(asset_index(e.asset), (self.balance(e.asset) + e.amount) as Quantity),
            locks: self.locks.remove(self.lock_pos(id)),
        }
    }

    /// Whether a fill of order `id` debiting `debit_amount` of `debit_asset` can be applied:
    /// the order has a lock entry of that asset holding at least that amount.
    pub open spec fn fill_ok(self, id: OrderId, debit_asset: Asset, debit_amount: Quantity) -> bool {
        &&& self.has_lock(id)
        &&& self.lock_entry(id).asset == debit_asset
        &&& self.lock_entry(id).amount >= debit_amount
    }

    /// The account after a fill of order `id`: its lock entry drops by `debit_amount`
    /// (and goes when it reaches zero) and `credit_amount` of `credit_asset` is credited.
    pub open spec fn filled(
        self,
        id: OrderId,
        debit_amount: Quantity,
        credit_asset: Asset,
        credit_amount: Quantity,
    ) -> UserView {
        let e = self.lock_entry(id);
        let rest = (e.amount - debit_amount) as Quantity;
        let locks = if rest == 0 {
            self.locks.remove(self.lock_pos(id))
        } else {
            self.locks.update(self.lock_pos(id), (id, LockEntry { asset: e.asset, amount: rest }))
        };
        UserView { locks, ..self }.credited(credit_asset, credit_amount)
    }

    /// The invariant of an account: one balance per asset, at most one lock entry per
    /// order, and every locked total fits a `Quantity`.
    pub open spec fn wf(self) -> bool {
        &&& self.balances.len() == ASSET_COUNT
        &&& forall|i: int, j: int|
            0 <= i < self.locks.len() && 0 <= j < self.locks.len() && i != j ==> self.locks[i].0
                != self.locks[j].0
        &&& forall|a: Asset| #[trigger] self.locked(a) <= Quantity::MAX
    }
}

// ---------------------------------------------------------------------------
// Lemmas on locked totals
// ---------------------------------------------------------------------------

/// Pushing an entry adds its contribution.
proof fn lemma_sum_push(s: Seq<(OrderId, LockEntry)>, x: (OrderId, LockEntry), a: Asset)
    ensures
        locked_sum(s.push(x), a) == locked_sum(s, a) + contribution(x, a),
{
    assert(s.push(x).drop_last() =~= s);
}

/// Replacing an entry swaps its contribution.
proof fn lemma_sum_update(s: Seq<(OrderId, LockEntry)>, i: int, x: (OrderId, LockEntry), a: Asset)
    requires
        0 <= i < s.len(),
    ensures
        locked_sum(s.update(i, x), a) + contribution(s[i], a) == locked_sum(s, a) + contribution(x, a),
    decreases s.len(),
{
    let t = s.update(i, x);
    if i == s.len() - 1 {
        assert(t.drop_last() =~= s.drop_last());
    } else {
        lemma_sum_update(s.drop_last(), i, x, a);
        assert(t.drop_last() =~= s.drop_last().update(i, x));
    }
}

/// Removing an entry takes away its contribution.
proof fn lemma_sum_remove(s: Seq<(OrderId, LockEntry)>, i: int, a: Asset)
    requires
        0 <= i < s.len(),
    ensures
        locked_sum(s.remove(i), a) + contribution(s[i], a) == locked_sum(s, a),
    decreases s.len(),
{
    let t = s.remove(i);
    if i == s.len() - 1 {
        assert(t =~= s.drop_last());
    } else {
        lemma_sum_remove(s.drop_last(), i, a);
        assert(t.drop_last() =~= s.drop_last().remove(i));
        assert(t.last() == s.last());
    }
}

/// The locked total of a prefix is at most the whole total.
proof fn lemma_sum_prefix(s: Seq<(OrderId, LockEntry)>, k: int, a: Asset)
    requires
        0 <= k <= s.len(),
    ensures
        locked_sum(s.take(k), a) <= locked_sum(s, a),
    decreases s.len() - k,
{
    if k < s.len() {
        lemma_sum_prefix(s, k + 1, a);
        assert(s.take(k + 1).drop_last() =~= s.take(k));
    } else {
        assert(s.take(k) =~= s);
    }
}

/// In an account without repeated order IDs, the position of an ID is the one found for it.
proof fn lemma_lock_pos_unique(u: UserView, id: OrderId, i: int)
    requires
        u.wf(),
        0 <= i < u.locks.len(),
        u.locks[i].0 == id,
    ensures
        u.has_lock(id),
        u.lock_pos(id) == i,
{
    assert(u.has_lock(id));
    let j = u.lock_pos(id);
    assert(u.locks[j].0 == id);
}

/// Removing an entry keeps order IDs distinct.
proof fn lemma_remove_distinct(s: Seq<(OrderId, LockEntry)>, k: int)
    requires
        0 <= k < s.len(),
        forall|i: int, j: int| 0 <= i < s.len() && 0 <= j < s.len() && i != j ==> s[i].0 != s[j].0,
    ensures
        forall|i: int, j: int|
            0 <= i < s.remove(k).len() && 0 <= j < s.remove(k).len() && i != j ==> s.remove(k)[i].0
                != s.remove(k)[j].0,
{
    let t = s.remove(k);
    assert forall|i: int, j: int| 0 <= i < t.len() && 0 <= j < t.len() && i != j implies t[i].0 != t[j].0 by {
        let ii = if i < k { i } else { i + 1 };
        let jj = if j < k { j } else { j + 1 };
        assert(t[i] == s[ii]);
        assert(t[j] == s[jj]);
    }
}

/// After a lock for order `id`, the order's lock entry is the new one and the balance
/// dropped by its amount.
pub proof fn lemma_locked_for_entry(u: UserView, id: OrderId, a: Asset, amount: Quantity)
    requires
        u.wf(),
        u.locked_for(id, a, amount).wf(),
        u.balance(a) >= amount,
    ensures
        u.locked_for(id, a, amount).has_lock(id),
        u.locked_for(id, a, amount).lock_entry(id) == (LockEntry { asset: a, amount }),
        u.locked_for(id, a, amount).balance(a) == u.balance(a) - amount,
{
    let v = u.locked_for(id, a, amount);
    let k = if u.has_lock(id) { u.lock_pos(id) } else { u.locks.len() as int };
    assert(v.locks[k] == (id, LockEntry { asset: a, amount }));
    assert(v.has_lock(id));
    let j = v.lock_pos(id);
    assert(v.locks[j].0 == id);
    lemma_asset_index_bijective(a, a);
}

/// Locking for an order without a lock entry, then releasing it, gives back the account.
pub proof fn law_lock_unlock_roundtrip(u: UserView, id: OrderId, a: Asset, amount: Quantity)
    requires
        u.wf(),
        !u.has_lock(id),
        u.available(a) >= amount,
    ensures
        u.locked_for(id, a, amount).unlocked(id) == u,
{
    let v = u.locked_for(id, a, amount);
    let k = u.locks.len() as int;
    assert(v.locks[k].0 == id);
    assert(v.has_lock(id));
    let j = v.lock_pos(id);
    assert(v.locks[j].0 == id);
    if j != k {
        assert(u.locks[j].0 == id);
        assert(u.has_lock(id));
    }
    assert(v.locks.remove(k) =~= u.locks);
    lemma_asset_index_bijective(a, a);
    assert(v.balance(a) == u.balance(a) - amount);
    assert(v.balances.update(asset_index(a), (v.balance(a) + amount) as Quantity) =~= u.balances);
}

/// Applying a fill moves amounts and nothing else: the locked total of the debited asset
/// drops by the debit, the balance of the credited asset rises by the credit, and every
/// other balance and locked total stays.
pub proof fn law_fill_moves_amounts(
    u: UserView,
    id: OrderId,
    debit_asset: Asset,
    debit_amount: Quantity,
    credit_asset: Asset,
    credit_amount: Quantity,
    x: Asset,
)
    requires
        u.wf(),
        u.fill_ok(id, debit_asset, debit_amount),
        u.balance(credit_asset) + credit_amount <= Quantity::MAX,
    ensures
        ({
            let v = u.filled(id, debit_amount, credit_asset, credit_amount);
            &&& v.locked(x) == if x == debit_asset {
                u.locked(x) - debit_amount
            } else {
                u.locked(x) as int
            }
            &&& v.balance(x) == if x == credit_asset {
                u.balance(x) + credit_amount
            } else {
                u.balance(x) as int
            }
        }),
{
    let k = u.lock_pos(id);
    let e = u.lock_entry(id);
    let rest = (e.amount - debit_amount) as Quantity;
    if rest == 0 {
        lemma_sum_remove(u.locks, k, x);
    } else {
        lemma_sum_update(u.locks, k, (id, LockEntry { asset: e.asset, amount: rest }), x);
    }
    lemma_asset_index_bijective(x, credit_asset);
}

/// A fill that applies, and whose credit fits, keeps an account well formed.
pub proof fn lemma_filled_wf(
    u: UserView,
    id: OrderId,
    debit_asset: Asset,
    debit_amount: Quantity,
    credit_asset: Asset,
    credit_amount: Quantity,
)
    requires
        u.wf(),
        u.fill_ok(id, debit_asset, debit_amount),
        u.balance(credit_asset) + credit_amount <= Quantity::MAX,
    ensures
        u.filled(id, debit_amount, credit_asset, credit_amount).wf(),
{
    let v = u.filled(id, debit_amount, credit_asset, credit_amount);
    assert forall|x: Asset| #[trigger] v.locked(x) <= Quantity::MAX by {
        law_fill_moves_amounts(u, id, debit_asset, debit_amount, credit_asset, credit_amount, x);
    }
    let k = u.lock_pos(id);
    let e = u.lock_entry(id);
    let rest = (e.amount - debit_amount) as Quantity;
    if rest == 0 {
        lemma_remove_distinct(u.locks, k);
    } else {
        let t = u.locks.update(k, (id, LockEntry { asset: e.asset, amount: rest }));
        assert forall|i: int, j: int| 0 <= i < t.len() && 0 <= j < t.len() && i != j implies t[i].0 != t[j].0 by {
            assert(t[i].0 == u.locks[i].0);
            assert(t[j].0 == u.locks[j].0);
        }
    }
}

/// Two credits of one asset add up: crediting `x` and then `y` is crediting `x + y`,
/// and a credit raises that asset's balance by the amount and changes nothing else.
pub proof fn law_credits_add(u: UserView, a: Asset, x: Quantity, y: Quantity)
    requires
        u.wf(),
        u.balance(a) + x + y <= Quantity::MAX,
    ensures
        u.credited(a, x).credited(a, y) == u.credited(a, (x + y) as Quantity),
        u.credited(a, x).balance(a) == u.balance(a) + x,
        forall|b: Asset| b != a ==> #[trigger] u.credited(a, x).balance(b) == u.balance(b),
        u.credited(a, x).locks == u.locks,
        u.credited(a, x).wf(),
{
    lemma_asset_index_bijective(a, a);
    assert forall|b: Asset| b != a implies #[trigger] u.credited(a, x).balance(b) == u.balance(b) by {
        lemma_asset_index_bijective(a, b);
    }
    assert(u.credited(a, x).credited(a, y).balances =~= u.credited(a, (x + y) as Quantity).balances);
    assert forall|b: Asset| #[trigger] u.credited(a, x).locked(b) <= Quantity::MAX by {
        assert(u.credited(a, x).locked(b) == u.locked(b));
        assert(u.locked(b) <= Quantity::MAX);
    }
}

/// Locking for an order without a lock entry, within what is available, keeps the
/// account well formed and moves the amount from the balance to the locked total: the
/// balance plus the locked total of every asset stays.
pub proof fn lemma_lock_keeps_holding(u: UserView, id: OrderId, a: Asset, amount: Quantity, x: Asset)
    requires
        u.wf(),
        !u.has_lock(id),
        u.available(a) >= amount,
        u.lock_fits(id, a, amount),
    ensures
        u.locked_for(id, a, amount).wf(),
        u.locked_for(id, a, amount).balance(x) + u.locked_for(id, a, amount).locked(x) == u.balance(x) + u.locked(
            x,
        ),
{
    let e = LockEntry { asset: a, amount };
    let v = u.locked_for(id, a, amount);
    assert(v.locks == u.locks.push((id, e)));
    assert forall|y: Asset| #[trigger] v.locked(y) <= Quantity::MAX by {
        lemma_sum_push(u.locks, (id, e), y);
        assert(u.locked(y) <= Quantity::MAX);
        assert(v.locked(y) == u.locked(y) + contribution((id, e), y));
    }
    lemma_sum_push(u.locks, (id, e), x);
    lemma_asset_index_bijective(x, a);
    assert forall|i: int, j: int| 0 <= i < v.locks.len() && 0 <= j < v.locks.len() && i != j implies v.locks[i].0
        != v.locks[j].0 by {
        if i == u.locks.len() {
            assert(u.locks[j].0 != id);
        } else if j == u.locks.len() {
            assert(u.locks[i].0 != id);
        }
    }
}

/// Releasing the lock entry of an order keeps the account well formed (when the
/// balance takes the amount back) and moves the amount from the locked total to the
/// balance: the balance plus the locked total of every asset stays.
pub proof fn lemma_unlock_keeps_holding(u: UserView, id: OrderId, x: Asset)
    requires
        u.wf(),
        u.has_lock(id),
        u.balance(u.lock_entry(id).asset) + u.lock_entry(id).amount <= Quantity::MAX,
    ensures
        u.unlocked(id).wf(),
        u.unlocked(id).balance(x) + u.unlocked(id).locked(x) == u.balance(x) + u.locked(x),
{
    let k = u.lock_pos(id);
    let e = u.lock_entry(id);
    let v = u.unlocked(id);
    assert forall|y: Asset| #[trigger] v.locked(y) <= Quantity::MAX by {
        lemma_sum_remove(u.locks, k, y);
        assert(u.locked(y) <= Quantity::MAX);
        assert(v.locks == u.locks.remove(k));
    }
    lemma_sum_remove(u.locks, k, x);
    lemma_remove_distinct(u.locks, k);
    lemma_asset_index_bijective(x, e.asset);
}

/// Calls `uuid::Uuid::new_v4()` and converts the UUID with `Uuid::as_u128`.
///
/// Claimed, from the crate's source (`new_v4` masks random bits and sets
/// `0x40008000000000000000`; `as_u128` reads the bytes back big-endian): the version
/// nibble (bits 76 to 79) is 4 and the variant bits (62 and 63) are `10`. Nothing else:
/// the value is random.
#[verifier::external_body]
fn random_user_id() -> (id: UserId)
    ensures
        (id >> 76u128) & 0xf == 4,
        (id >> 62u128) & 3 == 2,
{
    uuid::Uuid::new_v4().as_u128()
}

impl View for User {
    type V = UserView;

    closed spec fn view(&self) -> UserView {
        UserView { id: self.id, balances: self.balances@, locks: self.locked_orders@ }
    }
}

impl Clone for User {
    /// Returns a copy of the account.
    fn clone(&self) -> (u: Self)
        ensures
            u@ == self@,
    {
        let mut locked_orders: Vec<(OrderId, LockEntry)> = Vec::new();
        let mut i: usize = 0;
        while i < self.locked_orders.len()
            invariant
                i <= self.locked_orders.len(),
                locked_orders@ == self.locked_orders@.take(i as int),
            decreases self.locked_orders.len() - i,
        {
            locked_orders.push(self.locked_orders[i]);
            i = i + 1;
            proof {
                assert(locked_orders@ =~= self.locked_orders@.take(i as int));
            }
        }
        let mut balances: Vec<Quantity> = Vec::new();
        let mut j: usize = 0;
        while j < self.balances.len()
            invariant
                j <= self.balances.len(),
                balances@ == self.balances@.take(j as int),
            decreases self.balances.len() - j,
        {
            balances.push(self.balances[j]);
            j = j + 1;
            proof {
                assert(balances@ =~= self.balances@.take(j as int));
            }
        }
        proof {
            assert(locked_orders@ =~= self.locked_orders@);
            assert(balances@ =~= self.balances@);
        }
        User { id: self.id, locked_orders, balances }
    }
}

impl User {
    /// Creates an account with no balance and no locks, for `user_id`, or for a fresh
    /// random (version 4) UUID when none is given.
    pub fn new(user_id: Option<UserId>) -> (u: Self)
        ensures
            u@.wf(),
            user_id matches Some(id) ==> u@.id == id,
            user_id is None ==> (u@.id >> 76u128) & 0xf == 4 && (u@.id >> 62u128) & 3 == 2,
            u@.balances == seq![0 as Quantity; 5],
            u@.locks.len() == 0,
    {
        let fresh = random_user_id();
        let id = match user_id {
            Some(id) => id,
            None => fresh,
        };
        let balances: Vec<Quantity> = vec![0, 0, 0, 0, 0];
        let u = User { id, locked_orders: Vec::new(), balances };
        proof {
            assert(u@.balances =~= seq![0 as Quantity; 5]);
            assert forall|a: Asset| #[trigger] u@.locked(a) <= Quantity::MAX by {
                assert(u@.locks.len() == 0);
            }
        }
        u
    }

    /// Adds `amount` of `asset` to the balance.
    pub fn add_balance(&mut self, asset: Asset, amount: Quantity)
        requires
            old(self)@.wf(),
            old(self)@.balance(asset) + amount <= Quantity::MAX,
        ensures
            final(self)@.wf(),
            final(self)@ == old(self)@.credited(asset, amount),
    {
        let ghost u0 = self@;
        let i = asset_slot(asset);
        let b = self.balances[i] + amount;
        self.balances.set(i, b);
        proof {
            assert forall|x: Asset| #[trigger] self@.locked(x) <= Quantity::MAX by {
                assert(u0.locked(x) <= Quantity::MAX);
            }
        }
    }

    /// Returns the total amount of `asset` locked for orders.
    pub fn get_locked(&self, asset: &Asset) -> (r: Quantity)
        requires
            self@.wf(),
        ensures
            r == self@.locked(*asset),
    {
        let a = *asset;
        let mut total: Quantity = 0;
        let mut i: usize = 0;
        proof {
            assert(self.locked_orders@.take(0) =~= Seq::<(OrderId, LockEntry)>::empty());
        }
        while i < self.locked_orders.len()
            invariant
                self@.wf(),
                i <= self.locked_orders.len(),
                total == locked_sum(self.locked_orders@.take(i as int), a),
            decreases self.locked_orders.len() - i,
        {
            let e = self.locked_orders[i].1;
            proof {
                let s = self.locked_orders@;
                assert(s.take(i + 1).drop_last() =~= s.take(i as int));
                lemma_sum_prefix(s, i + 1, a);
                assert(self@.locked(a) <= Quantity::MAX);
            }
            if e.asset == a {
                total = total + e.amount;
            }
            i = i + 1;
        }
        proof {
            assert(self.locked_orders@.take(i as int) =~= self.locked_orders@);
        }
        total
    }

    /// Returns what can still be locked of `asset`: the balance, which locks have
    /// already been taken out of.
    pub fn get_available_balance(&self, asset: &Asset) -> (r: Quantity)
        requires
            self@.wf(),
        ensures
            r == self@.available(*asset),
            r == self@.balance(*asset),
    {
        self.get_balance(asset)
    }

    /// Locks `amount` of `asset` for order `order_id`: fails with "Insufficient balance",
    /// changing nothing, when the balance is below `amount`; otherwise moves `amount`
    /// out of the balance into the order's lock entry (replacing any earlier one).
    /// The locked total of `asset` must stay within a `Quantity`.
    pub fn lock(&mut self, order_id: OrderId, asset: Asset, amount: Quantity) -> (r: Result<(), String>)
        requires
            old(self)@.wf(),
            old(self)@.available(asset) >= amount ==> old(self)@.lock_fits(order_id, asset, amount),
        ensures
            final(self)@.wf(),
            r is Err <==> old(self)@.available(asset) < amount,
            r matches Err(e) ==> e@ == "Insufficient balance"@ && final(self)@ == old(self)@,
            r is Ok ==> final(self)@ == old(self)@.locked_for(order_id, asset, amount),
    {
        if self.get_available_balance(&asset) < amount {
            return Err(String::from_str("Insufficient balance"));
        }
        let ghost u0 = self@;
        let i = asset_slot(asset);
        let b = self.balances[i] - amount;
        self.balances.set(i, b);
        let e = LockEntry { asset, amount };
        match self.find_lock(order_id) {
            Some(k) => {
                proof {
                    lemma_lock_pos_unique(u0, order_id, k as int);
                }
                self.locked_orders.set(k, (order_id, e));
                proof {
                    assert(self@.locks =~= u0.locked_for(order_id, asset, amount).locks);
                }
            },
            None => {
                proof {
                    assert(self.locked_orders@ == u0.locks);
                    if u0.has_lock(order_id) {
                        let j = choose|j: int| 0 <= j < u0.locks.len() && u0.locks[j].0 == order_id;
                        assert(self@.locks[j].0 == order_id);
                    }
                }
                self.locked_orders.push((order_id, e));
                proof {
                    assert(self@.locks =~= u0.locked_for(order_id, asset, amount).locks);
                }
            },
        }
        proof {
            let u1 = self@;
            lemma_asset_index_bijective(asset, asset);
            assert(u1.balances =~= u0.balances.update(asset_index(asset), (u0.balance(asset) - amount) as Quantity));
            assert(u1 == u0.locked_for(order_id, asset, amount));
            assert forall|p: int, q: int|
                0 <= p < u1.locks.len() && 0 <= q < u1.locks.len() && p != q implies u1.locks[p].0
                    != u1.locks[q].0 by {
                if u0.has_lock(order_id) {
                    let k = u0.lock_pos(order_id);
                    if p != k && q != k {
                        assert(u0.locks[p].0 != u0.locks[q].0);
                    } else if p == k {
                        assert(u0.locks[q].0 != u0.locks[k].0);
                    } else {
                        assert(u0.locks[p].0 != u0.locks[k].0);
                    }
                } else {
                    if p < u0.locks.len() && q < u0.locks.len() {
                        assert(u0.locks[p].0 != u0.locks[q].0);
                    } else if p < u0.locks.len() {
                        assert(u0.locks[p].0 != order_id);
                    } else {
                        assert(u0.locks[q].0 != order_id);
                    }
                }
            }
            assert forall|x: Asset| #[trigger] u1.locked(x) <= Quantity::MAX by {
                if u0.has_lock(order_id) {
                    lemma_sum_update(u0.locks, u0.lock_pos(order_id), (order_id, e), x);
                } else {
                    lemma_sum_push(u0.locks, (order_id, e), x);
                }
                assert(u0.locked(x) <= Quantity::MAX);
            }
        }
        Ok(())
    }

    /// Returns the position of the lock entry of `order_id`, if it has one.
    fn find_lock(&self, order_id: OrderId) -> (r: Option<usize>)
        ensures
            match r {
                Some(k) => k < self@.locks.len() && self@.locks[k as int].0 == order_id,
                None => !self@.has_lock(order_id),
            },
    {
        let mut k: usize = 0;
        while k < self.locked_orders.len()
            invariant
                k <= self.locked_orders.len(),
                forall|j: int| 0 <= j < k ==> self.locked_orders@[j].0 != order_id,
            decreases self.locked_orders.len() - k,
        {
            if self.locked_orders[k].0 == order_id {
                return Some(k);
            }
            k = k + 1;
        }
        None
    }

    /// Releases the lock entry of `order_id` back to the balance; fails with
    /// "Order not locked", changing nothing, when the order has no lock entry.
    pub fn unlock_order(&mut self, order_id: &OrderId) -> (r: Result<(), String>)
        requires
            old(self)@.wf(),
            old(self)@.has_lock(*order_id) ==> old(self)@.balance(old(self)@.lock_entry(*order_id).asset)
                + old(self)@.lock_entry(*order_id).amount <= Quantity::MAX,
        ensures
            final(self)@.wf(),
            r is Err <==> !old(self)@.has_lock(*order_id),
            r matches Err(e) ==> e@ == "Order not locked"@ && final(self)@ == old(self)@,
            r is Ok ==> final(self)@ == old(self)@.unlocked(*order_id),
    {
        let ghost u0 = self@;
        match self.find_lock(*order_id) {
            None => Err(String::from_str("Order not locked")),
            Some(k) => {
                proof {
                    lemma_lock_pos_unique(u0, *order_id, k as int);
                }
                let (_, e) = self.locked_orders.remove(k);
                let i = asset_slot(e.asset);
                let b = self.balances[i] + e.amount;
                self.balances.set(i, b);
                proof {
                    lemma_remove_distinct(u0.locks, k as int);
                    assert forall|x: Asset| #[trigger] self@.locked(x) <= Quantity::MAX by {
                        lemma_sum_remove(u0.locks, k as int, x);
                        assert(u0.locked(x) <= Quantity::MAX);
                    }
                }
                Ok(())
            },
        }
    }

    /// Applies a fill of order `order_id`: debits `debit_amount` from its lock entry,
    /// which must be of `debit_asset`, removing the entry when it reaches zero, and
    /// credits `credit_amount` of `credit_asset`. Fails, changing nothing, with
    /// "Order not found in locked orders", "Locked asset mismatch" or
    /// "Locked amount insufficient for fill", checked in that order.
    pub fn apply_fill(
        &mut self,
        order_id: OrderId,
        debit_asset: Asset,
        debit_amount: Quantity,
        credit_asset: Asset,
        credit_amount: Quantity,
    ) -> (r: Result<(), String>)
        requires
            old(self)@.wf(),
            old(self)@.fill_ok(order_id, debit_asset, debit_amount) ==> old(self)@.balance(credit_asset)
                + credit_amount <= Quantity::MAX,
        ensures
            final(self)@.wf(),
            r is Err <==> !old(self)@.fill_ok(order_id, debit_asset, debit_amount),
            r is Err ==> final(self)@ == old(self)@,
            r matches Err(e) ==> if !old(self)@.has_lock(order_id) {
                e@ == "Order not found in locked orders"@
            } else if old(self)@.lock_entry(order_id).asset != debit_asset {
                e@ == "Locked asset mismatch"@
            } else {
                e@ == "Locked amount insufficient for fill"@
            },
            r is Ok ==> final(self)@ == old(self)@.filled(order_id, debit_amount, credit_asset, credit_amount),
    {
        let ghost u0 = self@;
        let k = match self.find_lock(order_id) {
            None => return Err(String::from_str("Order not found in locked orders")),
            Some(k) => k,
        };
        proof {
            lemma_lock_pos_unique(u0, order_id, k as int);
        }
        let e = self.locked_orders[k].1;
        if e.asset != debit_asset {
            return Err(String::from_str("Locked asset mismatch"));
        }
        if e.amount < debit_amount {
            return Err(String::from_str("Locked amount insufficient for fill"));
        }
        let rest = e.amount - debit_amount;
        if rest == 0 {
            self.locked_orders.remove(k);
            proof {
                lemma_remove_distinct(u0.locks, k as int);
                assert forall|x: Asset| #[trigger] self@.locked(x) <= Quantity::MAX by {
                    lemma_sum_remove(u0.locks, k as int, x);
                    assert(u0.locked(x) <= Quantity::MAX);
                }
            }
        } else {
            self.locked_orders.set(k, (order_id, LockEntry { asset: e.asset, amount: rest }));
            proof {
                let u1 = self@;
                assert forall|p: int, q: int|
                    0 <= p < u1.locks.len() && 0 <= q < u1.locks.len() && p != q implies u1.locks[p].0
                        != u1.locks[q].0 by {
                    if p != k && q != k {
                        assert(u0.locks[p].0 != u0.locks[q].0);
                    } else if p == k {
                        assert(u0.locks[q].0 != u0.locks[p].0);
                    } else {
                        assert(u0.locks[p].0 != u0.locks[q].0);
                    }
                }
                assert forall|x: Asset| #[trigger] u1.locked(x) <= Quantity::MAX by {
                    lemma_sum_update(u0.locks, k as int, (order_id, LockEntry { asset: e.asset, amount: rest }), x);
                    assert(u0.locked(x) <= Quantity::MAX);
                }
            }
        }
        let ghost u_mid = self@;
        let i = asset_slot(credit_asset);
        let b = self.balances[i] + credit_amount;
        self.balances.set(i, b);
        proof {
            assert forall|x: Asset| #[trigger] self@.locked(x) <= Quantity::MAX by {
                assert(u_mid.locked(x) <= Quantity::MAX);
            }
        }
        Ok(())
    }

    /// Returns the lock entries, oldest first.
    pub fn get_lock_entries(&self) -> (r: Vec<(OrderId, LockEntry)>)
        ensures
            r@ == self@.locks,
    {
        let mut out: Vec<(OrderId, LockEntry)> = Vec::new();
        let mut i: usize = 0;
        while i < self.locked_orders.len()
            invariant
                i <= self.locked_orders.len(),
                out@ == self.locked_orders@.take(i as int),
            decreases self.locked_orders.len() - i,
        {
            out.push(self.locked_orders[i]);
            i = i + 1;
            proof {
                assert(out@ =~= self.locked_orders@.take(i as int));
            }
        }
        proof {
            assert(out@ =~= self.locked_orders@);
        }
        out
    }

    /// Rebuilds an account from its ID, its lock entries and its balances (in the order
    /// ETH, SOL, BTC, USDC, USDT); `None` when they do not form a well-formed account
    /// (not one balance per asset, an order with two lock entries, or a locked total
    /// beyond a `Quantity`).
    pub fn from_parts(id: UserId, locks: Vec<(OrderId, LockEntry)>, balances: Vec<Quantity>) -> (r: Option<Self>)
        ensures
            r is Some <==> (UserView { id, balances: balances@, locks: locks@ }).wf(),
            r matches Some(u) ==> u@ == (UserView { id, balances: balances@, locks: locks@ }),
    {
        let ghost v = UserView { id, balances: balances@, locks: locks@ };
        if balances.len() != ASSET_COUNT {
            return None;
        }
        let mut i: usize = 0;
        while i < locks.len()
            invariant
                v == (UserView { id, balances: balances@, locks: locks@ }),
                i <= locks.len(),
                forall|p: int, q: int| 0 <= p < i && 0 <= q < locks.len() && p != q ==> locks@[p].0 != locks@[q].0,
            decreases locks.len() - i,
        {
            let mut j: usize = 0;
            while j < locks.len()
                invariant
                    v == (UserView { id, balances: balances@, locks: locks@ }),
                    i < locks.len(),
                    j <= locks.len(),
                    forall|p: int, q: int| 0 <= p < i && 0 <= q < locks.len() && p != q ==> locks@[p].0 != locks@[q].0,
                    forall|q: int| 0 <= q < j && q != i ==> locks@[i as int].0 != locks@[q].0,
                decreases locks.len() - j,
            {
                if j != i && locks[i].0 == locks[j].0 {
                    proof {
                        assert(!v.wf()) by {
                            if v.wf() {
                                assert(v.locks[i as int].0 != v.locks[j as int].0);
                            }
                        }
                    }
                    return None;
                }
                j = j + 1;
            }
            i = i + 1;
        }
        let mut k: usize = 0;
        while k < ASSET_COUNT
            invariant
                v == (UserView { id, balances: balances@, locks: locks@ }),
                k <= ASSET_COUNT,
                forall|x: Asset| asset_index(x) < k ==> #[trigger] locked_sum(locks@, x) <= Quantity::MAX,
            decreases ASSET_COUNT - k,
        {
            let a = crate::types::asset_from_slot(k);
            let mut total: u64 = 0;
            let mut p: usize = 0;
            proof {
                assert(locks@.take(0) =~= Seq::<(OrderId, LockEntry)>::empty());
            }
            while p < locks.len()
                invariant
                    v == (UserView { id, balances: balances@, locks: locks@ }),
                    p <= locks.len(),
                    total == locked_sum(locks@.take(p as int), a),
                    total <= Quantity::MAX,
                decreases locks.len() - p,
            {
                let e = locks[p].1;
                proof {
                    assert(locks@.take(p + 1).drop_last() =~= locks@.take(p as int));
                }
                if e.asset == a {
                    total = total + e.amount as u64;
                }
                if total > Quantity::MAX as u64 {
                    proof {
                        lemma_sum_prefix(locks@, p + 1, a);
                        assert(!v.wf()) by {
                            if v.wf() {
                                assert(v.locked(a) <= Quantity::MAX);
                            }
                        }
                    }
                    return None;
                }
                p = p + 1;
            }
            proof {
                assert(locks@.take(p as int) =~= locks@);
                assert forall|x: Asset| asset_index(x) < k + 1 implies #[trigger] locked_sum(locks@, x) <= Quantity::MAX by {
                    lemma_asset_index_bijective(x, a);
                }
            }
            k = k + 1;
        }
        proof {
            assert forall|x: Asset| #[trigger] v.locked(x) <= Quantity::MAX by {
                lemma_asset_index_bijective(x, x);
            }
        }
        Some(User { id, locked_orders: locks, balances })
    }

    /// Returns the user ID.
    pub fn get_user_id(&self) -> (r: UserId)
        ensures
            r == self@.id,
    {
        self.id
    }

    /// Returns the balance of `asset`.
    pub fn get_balance(&self, asset: &Asset) -> (r: Quantity)
        requires
            self@.wf(),
        ensures
            r == self@.balance(*asset),
    {
        self.balances[asset_slot(*asset)]
    }
}

} // verus!
