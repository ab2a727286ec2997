//! A single limit order of the exchange.

use vstd::prelude::*;

use crate::clock::unix_nanos;
use crate::types::{OrderId, OrderStatus, OrderType, Price, Quantity, Side, UserId};

verus! {

/// A single limit order.
///
/// `remaining_quantity <= initial_quantity` holds of every order built by
/// [`Order::new`] and is kept by [`Order::fills`] (see [`Order::wf`]).
#[derive(Debug, Clone, Copy)]
pub struct Order {
    /// Identifier of the order.
    pub order_id: OrderId,
    /// How long the order lives.
    pub order_type: OrderType,
    /// Buy or sell.
    pub side: Side,
    /// Current lifecycle state.
    pub status: OrderStatus,
    /// Limit price in quote units.
    pub price: Price,
    /// Quantity when the order was created.
    pub initial_quantity: Quantity,
    /// Quantity yet to be matched.
    pub remaining_quantity: Quantity,
    /// Nanoseconds since the Unix epoch when the order was created.
    pub timestamp: u64,
    /// The user who placed the order.
    pub user_id: UserId,
}

/// The order `o` after `quantity` more units of it were matched.
pub open spec fn filled_by(o: Order, quantity: Quantity) -> Order {
    let rem = (o.remaining_quantity - quantity) as Quantity;
    Order {
        remaining_quantity: rem,
        status: if rem == 0 { OrderStatus::Filled } else { OrderStatus::PartiallyFilled },
        ..o
    }
}

/// Two orders that differ at most in what matching changes: remaining quantity and status.
pub open spec fn same_order(a: Order, b: Order) -> bool {
    &&& a.order_id == b.order_id
    &&& a.order_type == b.order_type
    &&& a.side == b.side
    &&& a.price == b.price
    &&& a.initial_quantity == b.initial_quantity
    &&& a.timestamp == b.timestamp
    &&& a.user_id == b.user_id
}

impl Order {
    /// Never more remains of the order than was asked for.
    pub open spec fn wf(self) -> bool {
        self.remaining_quantity <= self.initial_quantity
    }

    /// Creates an order of `quantity` units at `price`, stamped with the current time.
    pub fn new(
        order_id: OrderId,
        order_type: OrderType,
        side: Side,
        status: OrderStatus,
        price: Price,
        quantity: Quantity,
        user_id: UserId,
    ) -> (o: Self)
        ensures
            o.order_id == order_id,
            o.order_type == order_type,
            o.side == side,
            o.status == status,
            o.price == price,
            o.initial_quantity == quantity,
            o.remaining_quantity == quantity,
            o.user_id == user_id,
            o.wf(),
    {
        let ts = unix_nanos();
        Order {
            order_id,
            order_type,
            side,
            status,
            price,
            initial_quantity: quantity,
            remaining_quantity: quantity,
            timestamp: ts,
            user_id,
        }
    }

    /// Returns the order ID.
    pub fn get_order_id(&self) -> (r: OrderId)
        ensures
            r == self.order_id,
    {
        self.order_id
    }

    /// Returns the order type.
    pub fn get_type(&self) -> (r: OrderType)
        ensures
            r == self.order_type,
    {
        self.order_type
    }

    /// Returns the side of the order.
    pub fn get_side(&self) -> (r: Side)
        ensures
            r == self.side,
    {
        self.side
    }

    /// Returns the lifecycle status.
    pub fn get_status(&self) -> (r: OrderStatus)
        ensures
            r == self.status,
    {
        self.status
    }

    /// Returns the limit price.
    pub fn get_price(&self) -> (r: Price)
        ensures
            r == self.price,
    {
        self.price
    }

    /// Returns the quantity the order was created with.
    pub fn get_initial_quantity(&self) -> (r: Quantity)
        ensures
            r == self.initial_quantity,
    {
        self.initial_quantity
    }

    /// Returns the quantity yet to be matched.
    pub fn get_remaining_quantity(&self) -> (r: Quantity)
        ensures
            r == self.remaining_quantity,
    {
        self.remaining_quantity
    }

    /// Returns the quantity matched so far: `initial_quantity - remaining_quantity`.
    pub fn get_filled_quantity(&self) -> (r: Quantity)
        requires
            self.wf(),
        ensures
            r == self.initial_quantity - self.remaining_quantity,
    {
        self.initial_quantity - self.remaining_quantity
    }

    /// Returns `true` exactly when nothing of the order remains.
    pub fn is_filled(&self) -> (r: bool)
        ensures
            r == (self.remaining_quantity == 0),
    {
        self.remaining_quantity == 0
    }

    /// Matches `quantity` more units of the order.
    ///
    /// Fails, leaving the order unchanged, when `quantity` exceeds what remains, with
    /// "Order (ID) cannot be filled for more than its remaining quantity".
    /// Otherwise the remaining quantity drops by `quantity` and the status becomes
    /// `Filled` when nothing remains, `PartiallyFilled` otherwise.
    pub fn fills(&mut self, quantity: Quantity) -> (r: Result<(), String>)
        ensures
            r is Err <==> quantity > old(self).remaining_quantity,
            r is Err ==> *final(self) == *old(self),
            r matches Err(e) ==> e@ == overfill_text(old(self).order_id),
            r is Ok ==> *final(self) == filled_by(*old(self), quantity),
            old(self).wf() ==> final(self).wf(),
    {
        if quantity > self.remaining_quantity {
            return Err(overfill_message(self.order_id));
        }
        self.remaining_quantity = self.remaining_quantity - quantity;
        if self.remaining_quantity == 0 {
            self.status = OrderStatus::Filled;
        } else {
            self.status = OrderStatus::PartiallyFilled;
        }
        Ok(())
    }

    /// Returns the creation time in nanoseconds since the Unix epoch.
    pub fn get_timestamp(&self) -> (r: u64)
        ensures
            r == self.timestamp,
    {
        self.timestamp
    }

    /// Returns the user who placed the order.
    pub fn get_user_id(&self) -> (r: UserId)
        ensures
            r == self.user_id,
    {
        self.user_id
    }

    /// Overwrites the order ID.
    pub fn set_order_id(&mut self, id: OrderId)
        ensures
            *final(self) == (Order { order_id: id, ..*old(self) }),
    {
        self.order_id = id;
    }
}

/// The decimal digits of `n`, most significant first, with no leading zero (`"0"` for 0).
pub open spec fn decimal(n: nat) -> Seq<char>
    decreases n,
{
    let digits = seq!['0', '1', '2', '3', '4', '5', '6', '7', '8', '9'];
    if n < 10 {
        seq![digits[n as int]]
    } else {
        decimal(n / 10).push(digits[(n % 10) as int])
    }
}

/// The message of a refused overfill of order `id`.
pub open spec fn overfill_text(id: OrderId) -> Seq<char> {
    "Order ("@ + decimal(id as nat) + ") cannot be filled for more than its remaining quantity"@
}

/// Formats, with `std::format!`, the message of a refused overfill of order `id`.
///
/// Claimed: the text around the ID as written, and the ID in decimal, as the `Display`
/// of unsigned integers writes it.
#[verifier::external_body]
fn overfill_message(id: OrderId) -> (s: String)
    ensures
        s@ == overfill_text(id),
{
    format!("Order ({}) cannot be filled for more than its remaining quantity", id)
}

} // verus!
