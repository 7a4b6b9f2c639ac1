//! Orders, their identifiers and the record handed back at settlement.

use vstd::prelude::*;

verus! {

/// The side of the market an order stands on.
#[derive(Clone, Copy, Debug, PartialEq, Eq, Structural)]
pub enum OrderType {
    Buy,
    Sell,
}

/// Identifier of an order, unique within a market for the length of a tick.
#[derive(Clone, Copy, Debug, PartialEq, Eq, Structural, Hash)]
pub struct OrderId {
    pub value: u128,
}

/// Mathematical model of an order: who it is, how much it asks for, how much
/// of that it has been given so far, and the priority tier it is rationed in.
pub struct Order {
    pub id: OrderId,
    pub requested: nat,
    pub filled: nat,
    pub tier: int,
}

/// A quantity that is read off an order and summed over orders.
pub enum Measure {
    /// What the order asks for.
    Requested,
    /// What the order has been given.
    Filled,
    /// What the order is still missing.
    Missing,
    /// One for the order that carries the identifier, zero for any other.
    Carrying(OrderId),
}

impl Order {
    /// An order never holds more than it asked for.
    pub open spec fn wf(self) -> bool {
        self.filled <= self.requested
    }

    /// The quantity still missing to fill the order.
    pub open spec fn missing(self) -> nat {
        (self.requested - self.filled) as nat
    }

    /// What the order counts for under a measure.
    pub open spec fn weigh(self, measure: Measure) -> nat {
        match measure {
            Measure::Requested => self.requested,
            Measure::Filled => self.filled,
            Measure::Missing => self.missing(),
            Measure::Carrying(id) => if self.id == id {
                1
            } else {
                0
            },
        }
    }

    /// The same order after `amount` more units have been traded.
    pub open spec fn credit(self, amount: nat) -> Order {
        Order { filled: self.filled + amount, ..self }
    }
}

/// One agent's request for one good in one tick.
#[derive(Clone, Copy, Debug)]
pub struct OrderInfo {
    id: OrderId,
    required_quantity: u64,
    traded_quantity: u64,
    tier: i64,
}

impl View for OrderInfo {
    type V = Order;

    closed spec fn view(&self) -> Order {
        Order {
            id: self.id,
            requested: self.required_quantity as nat,
            filled: self.traded_quantity as nat,
            tier: self.tier as int,
        }
    }
}

impl OrderInfo {
    /// A fresh order: nothing traded yet.
    pub fn new(id: OrderId, required_quantity: u64, tier: i64) -> (order: OrderInfo)
        ensures
            order@ == (Order {
                id,
                requested: required_quantity as nat,
                filled: 0,
                tier: tier as int,
            }),
            order@.wf(),
    {
        OrderInfo { id, required_quantity, traded_quantity: 0, tier }
    }

    /// The identifier of the order.
    pub fn id(&self) -> (id: OrderId)
        ensures
            id == self@.id,
    {
        self.id
    }

    /// What the order asks for.
    pub fn required_quantity(&self) -> (quantity: u64)
        ensures
            quantity == self@.requested,
    {
        self.required_quantity
    }

    /// What the order has been given so far.
    pub fn traded_quantity(&self) -> (quantity: u64)
        ensures
            quantity == self@.filled,
    {
        self.traded_quantity
    }

    /// The priority tier of the order.
    pub fn tier(&self) -> (tier: i64)
        ensures
            tier == self@.tier,
    {
        self.tier
    }

    /// The quantity still missing to fill the order.
    pub fn missing_quantity(&self) -> (missing: u64)
        requires
            self@.wf(),
        ensures
            missing == self@.missing(),
    {
        self.required_quantity - self.traded_quantity
    }

    /// Books `amount` more traded units on the order.
    pub(crate) fn credit(&mut self, amount: u64)
        requires
            old(self)@.wf(),
            amount <= old(self)@.missing(),
        ensures
            final(self)@ == old(self)@.credit(amount as nat),
            final(self)@.wf(),
    {
        self.traded_quantity = self.traded_quantity + amount;
    }
}

/// Mathematical model of what the owner of an order is told at settlement:
/// the side of the order, what it was given, and what that costs.
pub struct Outcome {
    pub side: OrderType,
    pub filled: nat,
    pub cost: nat,
}

/// What the owner of an order is told at settlement.
#[derive(Clone, Copy, Debug)]
pub struct OrderResult {
    /// The side of the order.
    pub ordertype: OrderType,
    /// What the order was given.
    pub traded_quantity: u64,
    /// What that costs at the market's unit price: owed by a buyer, due to a
    /// seller.
    pub total_cost: u128,
}

impl View for OrderResult {
    type V = Outcome;

    open spec fn view(&self) -> Outcome {
        Outcome {
            side: self.ordertype,
            filled: self.traded_quantity as nat,
            cost: self.total_cost as nat,
        }
    }
}

impl OrderResult {
    /// The record with these entries.
    pub fn new(ordertype: OrderType, traded_quantity: u64, total_cost: u128) -> (result:
        OrderResult)
        ensures
            result == (OrderResult { ordertype, traded_quantity, total_cost }),
    {
        OrderResult { ordertype, traded_quantity, total_cost }
    }
}

} // verus!
