//! A cancel-replace request.

use vstd::prelude::*;

use crate::order::Order;
use crate::types::{OrderId, OrderStatus, OrderType, Price, Quantity, Side, UserId};

verus! {

/// A request to replace an order with new side, price, quantity and status.
#[derive(Debug, Clone, Copy, PartialEq, Eq, Structural)]
pub struct OrderModify {
    pub order_id: OrderId,
    pub price: Price,
    pub side: Side,
    pub quantity: Quantity,
    pub status: OrderStatus,
    pub user_id: UserId,
}

impl OrderModify {
    /// Creates a modification request for order `order_id` of user `user_id`.
    pub fn new(
        order_id: OrderId,
        price: Price,
        side: Side,
        quantity: Quantity,
        status: OrderStatus,
        user_id: UserId,
    ) -> (m: Self)
        ensures
            m == (OrderModify { order_id, price, side, quantity, status, user_id }),
    {
        OrderModify { order_id, price, side, quantity, status, user_id }
    }

    /// Returns the order to replace.
    pub fn get_order_id(&self) -> (r: OrderId)
        ensures
            r == self.order_id,
    {
        self.order_id
    }

    /// Returns the new price.
    pub fn get_price(&self) -> (r: Price)
        ensures
            r == self.price,
    {
        self.price
    }

    /// Returns the new side.
    pub fn get_side(&self) -> (r: Side)
        ensures
            r == self.side,
    {
        self.side
    }

    /// Returns the new quantity.
    pub fn get_quantity(&self) -> (r: Quantity)
        ensures
            r == self.quantity,
    {
        self.quantity
    }

    /// Returns the new status.
    pub fn get_status(&self) -> (r: OrderStatus)
        ensures
            r == self.status,
    {
        self.status
    }

    /// Returns the owner of the order.
    pub fn get_user_id(&self) -> (r: UserId)
        ensures
            r == self.user_id,
    {
        self.user_id
    }

    /// Builds the replacement order, of type `order_type`.
    pub fn to_order_pointer(&self, order_type: OrderType) -> (o: Order)
        ensures
            o.order_id == self.order_id,
            o.order_type == order_type,
            o.side == self.side,
            o.status == self.status,
            o.price == self.price,
            o.initial_quantity == self.quantity,
            o.remaining_quantity == self.quantity,
            o.user_id == self.user_id,
    {
        Order::new(self.order_id, order_type, self.side, self.status, self.price, self.quantity, self.user_id)
    }
}

} // verus!
