//! The mathematical model of a market: the good it trades, its unit price
//! for the tick, the orders of both sides, and which of them have been told
//! their result.

use crate::order::{Measure, Order, OrderId, OrderType, Outcome};
use crate::partition::{lemma_tiers_total, lemma_tiers_wf, tiers};
use crate::rationing::{least, lemma_sum_push};
use crate::settlement::{lemma_settle, settle, tiers_total, tiers_wf};
use crate::tier::{all_wf, lemma_total_concat, measured, total, total_missing};
use vstd::prelude::*;

verus! {

/// No two orders carry the same identifier.
pub open spec fn distinct_ids(orders: Seq<Order>) -> bool {
    forall|i: int, j: int|
        0 <= i < j < orders.len() ==> (#[trigger] orders[i]).id != (#[trigger] orders[j]).id
}

/// The first of the orders that carries the identifier, if any does.
pub open spec fn find(orders: Seq<Order>, id: OrderId) -> Option<Order>
    decreases orders.len(),
{
    if orders.len() == 0 {
        None
    } else {
        match find(orders.drop_last(), id) {
            Some(order) => Some(order),
            None => if orders.last().id == id {
                Some(orders.last())
            } else {
                None
            },
        }
    }
}

/// The state of a market for one good within one tick.
pub struct Book {
    pub good: nat,
    pub price: nat,
    pub buy: Seq<Order>,
    pub sell: Seq<Order>,
    /// The identifiers of the orders whose result has been retrieved.
    pub told: Set<OrderId>,
}

impl Book {
    /// No order holds more than it asked for, no identifier is used twice,
    /// on either side or across the sides, and only orders of the book have
    /// been told their result.
    pub open spec fn wf(self) -> bool {
        &&& all_wf(self.buy)
        &&& all_wf(self.sell)
        &&& distinct_ids(self.buy + self.sell)
        &&& forall|id: OrderId| #[trigger] self.told.contains(id) ==> self.holds(id)
    }

    /// The book of a market in which no order has been posted.
    pub open spec fn empty(good: nat, price: nat) -> Book {
        Book { good, price, buy: Seq::empty(), sell: Seq::empty(), told: Set::empty() }
    }

    /// Some order of the book carries the identifier.
    pub open spec fn holds(self, id: OrderId) -> bool {
        find(self.buy, id) is Some || find(self.sell, id) is Some
    }

    /// The identifier is the smallest that no order of the book carries.
    pub open spec fn is_least_free(self, id: OrderId) -> bool {
        &&& !self.holds(id)
        &&& forall|value: u128| value < id.value ==> self.holds(OrderId { value })
    }

    /// The book with one more order at the end of a side.
    pub open spec fn with_order(self, side: OrderType, order: Order) -> Book {
        match side {
            OrderType::Buy => Book { buy: self.buy.push(order), ..self },
            OrderType::Sell => Book { sell: self.sell.push(order), ..self },
        }
    }

    /// How the order with this identifier stands: its side, what it was
    /// given, and what that costs at the unit price.
    pub open spec fn outcome(self, id: OrderId) -> Option<Outcome> {
        match find(self.buy, id) {
            Some(order) => Some(
                Outcome {
                    side: OrderType::Buy,
                    filled: order.filled,
                    cost: order.filled * self.price,
                },
            ),
            None => match find(self.sell, id) {
                Some(order) => Some(
                    Outcome {
                        side: OrderType::Sell,
                        filled: order.filled,
                        cost: order.filled * self.price,
                    },
                ),
                None => None,
            },
        }
    }

    /// What the buyers are still missing together.
    pub open spec fn demand(self) -> nat {
        total_missing(self.buy)
    }

    /// What the sellers are still missing together.
    pub open spec fn supply(self) -> nat {
        total_missing(self.sell)
    }

    /// The quantity that clearing moves from the sellers to the buyers.
    pub open spec fn volume(self) -> nat {
        least(self.demand(), self.supply())
    }

    /// The book after clearing. With both sides present, each side is split
    /// into its tiers, the tiers are matched from the highest down, and the
    /// orders stand tier after tier in the book again. With a side absent
    /// the book stays as it is.
    pub open spec fn cleared(self) -> Book {
        if self.buy.len() == 0 || self.sell.len() == 0 {
            self
        } else {
            let settlement = settle(tiers(self.buy), tiers(self.sell), 0, 0);
            Book { buy: settlement.buys.flatten(), sell: settlement.sells.flatten(), ..self }
        }
    }

    /// What the owner of the order with this identifier is told when it
    /// asks: how the order stands, the first time, and nothing after that.
    pub open spec fn answer(self, id: OrderId) -> Option<Outcome> {
        if self.told.contains(id) {
            None
        } else {
            self.outcome(id)
        }
    }

    /// The book after the owner of the order with this identifier has
    /// asked for the result.
    pub open spec fn asked(self, id: OrderId) -> Book {
        if self.answer(id) is Some {
            Book { told: self.told.insert(id), ..self }
        } else {
            self
        }
    }

    /// The book without its orders.
    pub open spec fn reset(self) -> Book {
        Book { buy: Seq::empty(), sell: Seq::empty(), told: Set::empty(), ..self }
    }
}

/// What is found in a leading part of the orders is what is found in all of
/// them.
pub proof fn lemma_find_prefix(orders: Seq<Order>, id: OrderId, upto: int)
    requires
        0 <= upto <= orders.len(),
        find(orders.take(upto), id) is Some,
    ensures
        find(orders, id) == find(orders.take(upto), id),
    decreases orders.len() - upto,
{
    if upto < orders.len() {
        assert(orders.take(upto + 1).drop_last() =~= orders.take(upto));
        lemma_find_prefix(orders, id, upto + 1);
    } else {
        assert(orders.take(upto) =~= orders);
    }
}

/// An order is found exactly if some order carries the identifier; the one
/// found carries it and is one of the orders.
pub proof fn lemma_find(orders: Seq<Order>, id: OrderId)
    ensures
        find(orders, id) is Some <==> exists|i: int|
            0 <= i < orders.len() && (#[trigger] orders[i]).id == id,
        find(orders, id) is Some <==> total(orders, Measure::Carrying(id)) >= 1,
        find(orders, id) matches Some(order) ==> order.id == id && orders.contains(order),
    decreases orders.len(),
{
    let carrying = Measure::Carrying(id);
    if orders.len() > 0 {
        let rest = orders.drop_last();
        lemma_find(rest, id);
        assert(measured(orders, carrying) =~= measured(rest, carrying).push(
            orders.last().weigh(carrying),
        ));
        lemma_sum_push(measured(rest, carrying), orders.last().weigh(carrying));
        if find(rest, id) is Some {
            let i = choose|i: int| 0 <= i < rest.len() && (#[trigger] rest[i]).id == id;
            assert(orders[i].id == id);
            let found = find(rest, id)->0;
            let at = choose|at: int| 0 <= at < rest.len() && rest[at] == found;
            assert(orders[at] == found);
        } else if orders.last().id == id {
            assert(orders[orders.len() - 1].id == id);
        } else {
            assert forall|i: int| 0 <= i < orders.len() implies (#[trigger] orders[i]).id
                != id by {
                if i < rest.len() {
                    assert(rest[i].id != id);
                }
            }
        }
    } else {
        assert(measured(orders, carrying) =~= Seq::<nat>::empty());
    }
}

/// Orders with distinct identifiers count at most one order for each
/// identifier, and the other way round.
pub proof fn lemma_distinct_ids(orders: Seq<Order>)
    ensures
        distinct_ids(orders) <==> forall|id: OrderId|
            #[trigger] total(orders, Measure::Carrying(id)) <= 1,
    decreases orders.len(),
{
    if orders.len() > 0 {
        let rest = orders.drop_last();
        let last = orders.last();
        lemma_distinct_ids(rest);
        assert forall|id: OrderId|
            #[trigger] total(orders, Measure::Carrying(id)) == total(rest, Measure::Carrying(id))
                + last.weigh(Measure::Carrying(id)) by {
            assert(measured(orders, Measure::Carrying(id)) =~= measured(
                rest,
                Measure::Carrying(id),
            ).push(last.weigh(Measure::Carrying(id))));
            lemma_sum_push(
                measured(rest, Measure::Carrying(id)),
                last.weigh(Measure::Carrying(id)),
            );
        }
        lemma_find(rest, last.id);
        if distinct_ids(orders) {
            assert(distinct_ids(rest)) by {
                assert forall|i: int, j: int| 0 <= i < j < rest.len() implies (
                #[trigger] rest[i]).id != (#[trigger] rest[j]).id by {
                    assert(orders[i].id != orders[j].id);
                }
            }
            assert(find(rest, last.id) is None) by {
                if find(rest, last.id) is Some {
                    let i = choose|i: int|
                        0 <= i < rest.len() && (#[trigger] rest[i]).id == last.id;
                    assert(orders[i].id != orders[orders.len() - 1].id);
                }
            }
            assert forall|id: OrderId| #[trigger]
                total(orders, Measure::Carrying(id)) <= 1 by {
                assert(total(rest, Measure::Carrying(id)) <= 1);
            }
        }
        if forall|id: OrderId| #[trigger] total(orders, Measure::Carrying(id)) <= 1 {
            assert forall|id: OrderId| #[trigger]
                total(rest, Measure::Carrying(id)) <= 1 by {
                assert(total(orders, Measure::Carrying(id)) <= 1);
            }
            assert(total(orders, Measure::Carrying(last.id)) <= 1);
            assert forall|i: int, j: int| 0 <= i < j < orders.len() implies (
            #[trigger] orders[i]).id != (#[trigger] orders[j]).id by {
                if j < rest.len() {
                    assert(rest[i].id != rest[j].id);
                } else {
                    assert(rest[i].id != last.id);
                }
            }
        }
    } else {
        assert forall|id: OrderId| #[trigger]
            total(orders, Measure::Carrying(id)) <= 1 by {
            assert(measured(orders, Measure::Carrying(id)) =~= Seq::<nat>::empty());
        }
    }
}

/// Tiers that are well formed hold well-formed orders.
pub proof fn lemma_flatten_wf(split: Seq<Seq<Order>>)
    requires
        tiers_wf(split),
    ensures
        all_wf(split.flatten()),
    decreases split.len(),
{
    if split.len() > 0 {
        let front = split.drop_last();
        assert(split =~= front.push(split.last()));
        front.lemma_flatten_push(split.last());
        assert(tiers_wf(front)) by {
            assert forall|t: int| 0 <= t < front.len() implies all_wf(#[trigger] front[t]) by {
                assert(all_wf(split[t]));
            }
        }
        lemma_flatten_wf(front);
        assert(all_wf(split[split.len() - 1]));
        let joined = split.flatten();
        assert forall|i: int| 0 <= i < joined.len() implies (#[trigger] joined[i]).wf() by {
            if i < front.flatten().len() {
                assert(front.flatten()[i].wf());
            } else {
                assert(split.last()[i - front.flatten().len()].wf());
            }
        }
    } else {
        assert(split.flatten() =~= Seq::<Order>::empty());
    }
}

impl Book {
    /// Clearing keeps the book well formed. Under every measure but what is
    /// filled and what is missing, each side counts for what it did: no
    /// order is lost, made up or moved to the other side, and none asks for
    /// anything else than before. What changes hands is the smaller of what
    /// the two sides were missing; it is booked in full on each side.
    pub proof fn lemma_cleared(self)
        requires
            self.wf(),
        ensures
            self.cleared().wf(),
            self.cleared().good == self.good,
            self.cleared().price == self.price,
            self.cleared().told == self.told,
            total(self.cleared().buy, Measure::Filled) == total(self.buy, Measure::Filled)
                + self.volume(),
            total(self.cleared().sell, Measure::Filled) == total(self.sell, Measure::Filled)
                + self.volume(),
            total(self.cleared().buy, Measure::Missing) + self.volume() == total(
                self.buy,
                Measure::Missing,
            ),
            total(self.cleared().sell, Measure::Missing) + self.volume() == total(
                self.sell,
                Measure::Missing,
            ),
            total(self.cleared().buy, Measure::Requested) == total(self.buy, Measure::Requested),
            total(self.cleared().sell, Measure::Requested) == total(self.sell, Measure::Requested),
            forall|id: OrderId|
                total(self.cleared().buy, Measure::Carrying(id)) == total(
                    self.buy,
                    Measure::Carrying(id),
                ),
            forall|id: OrderId|
                total(self.cleared().sell, Measure::Carrying(id)) == total(
                    self.sell,
                    Measure::Carrying(id),
                ),
            self.buy.len() > 0 && self.sell.len() > 0 ==> settle(
                tiers(self.buy),
                tiers(self.sell),
                0,
                0,
            ).traded == self.volume(),
    {
        if self.buy.len() == 0 || self.sell.len() == 0 {
            if self.buy.len() == 0 {
                assert(measured(self.buy, Measure::Missing) =~= Seq::<nat>::empty());
            } else {
                assert(measured(self.sell, Measure::Missing) =~= Seq::<nat>::empty());
            }
        } else {
            let buys = tiers(self.buy);
            let sells = tiers(self.sell);
            let after = self.cleared();
            lemma_tiers_wf(self.buy);
            lemma_tiers_wf(self.sell);
            lemma_settle(buys, sells, 0, 0);
            lemma_tiers_total(self.buy, Measure::Missing);
            lemma_tiers_total(self.sell, Measure::Missing);
            lemma_tiers_total(self.buy, Measure::Filled);
            lemma_tiers_total(self.sell, Measure::Filled);
            lemma_tiers_total(self.buy, Measure::Requested);
            lemma_tiers_total(self.sell, Measure::Requested);
            lemma_flatten_wf(settle(buys, sells, 0, 0).buys);
            lemma_flatten_wf(settle(buys, sells, 0, 0).sells);
            assert forall|id: OrderId|
                total(after.buy, Measure::Carrying(id)) == total(
                    self.buy,
                    Measure::Carrying(id),
                ) by {
                lemma_tiers_total(self.buy, Measure::Carrying(id));
                assert(tiers_total(settle(buys, sells, 0, 0).buys, Measure::Carrying(id))
                    == tiers_total(buys, Measure::Carrying(id)));
            }
            assert forall|id: OrderId|
                total(after.sell, Measure::Carrying(id)) == total(
                    self.sell,
                    Measure::Carrying(id),
                ) by {
                lemma_tiers_total(self.sell, Measure::Carrying(id));
                assert(tiers_total(settle(buys, sells, 0, 0).sells, Measure::Carrying(id))
                    == tiers_total(sells, Measure::Carrying(id)));
            }
            lemma_distinct_ids(self.buy + self.sell);
            lemma_distinct_ids(after.buy + after.sell);
            assert forall|id: OrderId| #[trigger]
                total(after.buy + after.sell, Measure::Carrying(id)) <= 1 by {
                lemma_total_concat(after.buy, after.sell, Measure::Carrying(id));
                lemma_total_concat(self.buy, self.sell, Measure::Carrying(id));
                assert(total(self.buy + self.sell, Measure::Carrying(id)) <= 1);
            }
            assert forall|id: OrderId| #[trigger] after.told.contains(id) implies after.holds(
                id,
            ) by {
                assert(self.told.contains(id));
                lemma_find(self.buy, id);
                lemma_find(self.sell, id);
                lemma_find(after.buy, id);
                lemma_find(after.sell, id);
            }
        }
    }
}

/// How many of the orders carry an identifier below `bound`.
pub open spec fn count_below(orders: Seq<Order>, bound: nat) -> nat
    decreases orders.len(),
{
    if orders.len() == 0 {
        0
    } else {
        count_below(orders.drop_last(), bound) + if orders.last().id.value < bound {
            1nat
        } else {
            0nat
        }
    }
}

/// The orders below `bound + 1` are those below `bound` and those that
/// carry `bound`; none of these counts exceeds the number of orders.
pub proof fn lemma_count_below(orders: Seq<Order>, bound: u128)
    ensures
        count_below(orders, bound as nat + 1) == count_below(orders, bound as nat) + total(
            orders,
            Measure::Carrying(OrderId { value: bound }),
        ),
        count_below(orders, bound as nat + 1) <= orders.len(),
    decreases orders.len(),
{
    let carrying = Measure::Carrying(OrderId { value: bound });
    if orders.len() > 0 {
        let rest = orders.drop_last();
        lemma_count_below(rest, bound);
        assert(measured(orders, carrying) =~= measured(rest, carrying).push(
            orders.last().weigh(carrying),
        ));
        lemma_sum_push(measured(rest, carrying), orders.last().weigh(carrying));
    } else {
        assert(measured(orders, carrying) =~= Seq::<nat>::empty());
    }
}

/// If every identifier below `bound` is carried by one of the orders, there
/// are at least `bound` orders.
pub proof fn lemma_crowded(orders: Seq<Order>, bound: nat)
    requires
        bound <= u128::MAX + 1,
        forall|value: u128|
            value < bound ==> #[trigger] total(orders, Measure::Carrying(OrderId { value })) >= 1,
    ensures
        bound <= count_below(orders, bound) <= orders.len(),
    decreases bound,
{
    if bound > 0 {
        let value = (bound - 1) as u128;
        lemma_crowded(orders, (bound - 1) as nat);
        lemma_count_below(orders, value);
        assert(total(orders, Measure::Carrying(OrderId { value })) >= 1);
    } else {
        lemma_count_below_none(orders);
    }
}

/// No order carries an identifier below zero.
pub proof fn lemma_count_below_none(orders: Seq<Order>)
    ensures
        count_below(orders, 0) == 0,
    decreases orders.len(),
{
    if orders.len() > 0 {
        lemma_count_below_none(orders.drop_last());
    }
}

impl Book {
    /// An identifier is held exactly if an order of either side carries it.
    pub proof fn lemma_holds(self, id: OrderId)
        ensures
            self.holds(id) <==> total(self.buy + self.sell, Measure::Carrying(id)) >= 1,
            self.holds(id) <==> (exists|i: int|
                0 <= i < self.buy.len() && (#[trigger] self.buy[i]).id == id) || (exists|i: int|
                0 <= i < self.sell.len() && (#[trigger] self.sell[i]).id == id),
    {
        lemma_find(self.buy, id);
        lemma_find(self.sell, id);
        lemma_total_concat(self.buy, self.sell, Measure::Carrying(id));
    }

    /// A book in which every identifier below `bound` is held has at least
    /// `bound` orders.
    pub proof fn lemma_full_below(self, bound: nat)
        requires
            bound <= u128::MAX + 1,
            forall|value: u128| value < bound ==> #[trigger] self.holds(OrderId { value }),
        ensures
            bound <= self.buy.len() + self.sell.len(),
    {
        assert forall|value: u128| value < bound implies #[trigger] total(
            self.buy + self.sell,
            Measure::Carrying(OrderId { value }),
        ) >= 1 by {
            assert(self.holds(OrderId { value }));
            self.lemma_holds(OrderId { value });
        }
        lemma_crowded(self.buy + self.sell, bound);
    }

    /// An order with an identifier that the book does not hold can join it.
    pub proof fn lemma_with_order(self, side: OrderType, order: Order)
        requires
            self.wf(),
            order.wf(),
            !self.holds(order.id),
        ensures
            self.with_order(side, order).wf(),
    {
        let after = self.with_order(side, order);
        lemma_distinct_ids(self.buy + self.sell);
        lemma_distinct_ids(after.buy + after.sell);
        self.lemma_holds(order.id);
        assert forall|id: OrderId| #[trigger]
            total(after.buy + after.sell, Measure::Carrying(id)) <= 1 by {
            let carrying = Measure::Carrying(id);
            lemma_total_concat(self.buy, self.sell, carrying);
            lemma_total_concat(after.buy, after.sell, carrying);
            assert(total(self.buy + self.sell, carrying) <= 1);
            match side {
                OrderType::Buy => {
                    assert(measured(after.buy, carrying) =~= measured(self.buy, carrying).push(
                        order.weigh(carrying),
                    ));
                    lemma_sum_push(measured(self.buy, carrying), order.weigh(carrying));
                },
                OrderType::Sell => {
                    assert(measured(after.sell, carrying) =~= measured(self.sell, carrying).push(
                        order.weigh(carrying),
                    ));
                    lemma_sum_push(measured(self.sell, carrying), order.weigh(carrying));
                },
            }
        }
        assert forall|id: OrderId| #[trigger] after.told.contains(id) implies after.holds(id) by {
            assert(self.told.contains(id));
            match side {
                OrderType::Buy => {
                    assert(after.buy.drop_last() =~= self.buy);
                },
                OrderType::Sell => {
                    assert(after.sell.drop_last() =~= self.sell);
                },
            }
        }
        match side {
            OrderType::Buy => {
                assert forall|i: int| 0 <= i < after.buy.len() implies (
                #[trigger] after.buy[i]).wf() by {
                    if i < self.buy.len() {
                        assert(self.buy[i].wf());
                    }
                }
            },
            OrderType::Sell => {
                assert forall|i: int| 0 <= i < after.sell.len() implies (
                #[trigger] after.sell[i]).wf() by {
                    if i < self.sell.len() {
                        assert(self.sell[i].wf());
                    }
                }
            },
        }
    }
}

} // verus!
