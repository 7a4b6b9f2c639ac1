//! The market for one good: it takes orders during a tick, clears them once,
//! tells each order what it traded, and is emptied for the next tick.

use crate::book::{find, lemma_find_prefix, Book};
use crate::goods::GoodUid;
use crate::ident::random_id;
use crate::order::{Order, OrderId, OrderInfo, OrderResult, OrderType};
use crate::partition::{join_tiers, lemma_tiers_wf, split_tiers, tier_views};
use crate::rationing::least;
use crate::settlement::{settle, tiers_wf};
use crate::tier::{all_wf, fill_all, rationed, remaining, trade_loop, views};
use vstd::prelude::*;

verus! {

/// Money, in the smallest unit of the currency.
pub type Price = u64;

/// The market for one good.
#[derive(Debug)]
pub struct TestMarket {
    good_uid: GoodUid,
    price_per_unit: Price,
    buy_orders: Vec<OrderInfo>,
    sell_orders: Vec<OrderInfo>,
    told: Vec<OrderId>,
}

impl View for TestMarket {
    type V = Book;

    closed spec fn view(&self) -> Book {
        Book {
            good: self.good_uid as nat,
            price: self.price_per_unit as nat,
            buy: views(self.buy_orders@),
            sell: views(self.sell_orders@),
            told: self.told@.to_set(),
        }
    }
}

/// Looks for the first order that carries the identifier.
fn find_order(orders: &Vec<OrderInfo>, id: OrderId) -> (found: Option<OrderInfo>)
    ensures
        match found {
            Some(order) => find(views(orders@), id) == Some(order@),
            None => find(views(orders@), id) is None,
        },
{
    let ghost all = views(orders@);
    let mut j: usize = 0;
    while j < orders.len()
        invariant
            j <= orders.len(),
            all == views(orders@),
            find(all.take(j as int), id) is None,
        decreases orders.len() - j,
    {
        proof {
            assert(all.take(j + 1).drop_last() =~= all.take(j as int));
        }
        if orders[j].id().value == id.value {
            proof {
                lemma_find_prefix(all, id, j + 1);
            }
            return Some(orders[j]);
        }
        j = j + 1;
    }
    proof {
        assert(all.take(j as int) =~= all);
    }
    None
}

impl TestMarket {
    /// A market for `good_uid` at `price_per_unit`, with no orders yet.
    pub fn new(good_uid: GoodUid, price_per_unit: Price) -> (market: TestMarket)
        ensures
            market@ == Book::empty(good_uid as nat, price_per_unit as nat),
            market@.wf(),
    {
        let market = TestMarket {
            good_uid,
            price_per_unit,
            buy_orders: Vec::new(),
            sell_orders: Vec::new(),
            told: Vec::new(),
        };
        proof {
            assert(market@.buy =~= Seq::<Order>::empty());
            assert(market@.sell =~= Seq::<Order>::empty());
            assert(market@.told =~= Set::<OrderId>::empty());
        }
        market
    }

    /// The good that is traded here.
    pub fn good_uid(&self) -> (good: GoodUid)
        ensures
            good == self@.good,
    {
        self.good_uid
    }

    /// The price of one unit, fixed for the tick.
    pub fn price_per_unit(&self) -> (price: Price)
        ensures
            price == self@.price,
    {
        self.price_per_unit
    }

    /// Tells the owner of an order, once, what the order has traded so far
    /// and what that costs. The answer is `None` if no order of the market
    /// carries the identifier, or if the result has been retrieved before.
    pub fn retrieve_order_result(&mut self, id: &OrderId) -> (result: Option<OrderResult>)
        requires
            old(self)@.wf(),
        ensures
            match result {
                Some(outcome) => old(self)@.answer(*id) == Some(outcome@),
                None => old(self)@.answer(*id) is None,
            },
            final(self)@ == old(self)@.asked(*id),
            final(self)@.wf(),
    {
        if self.is_told(id) {
            return None;
        }
        let result = self.result_of(id);
        if result.is_some() {
            self.told.push(*id);
            proof {
                old(self).told@.lemma_push_to_set_commute(*id);
            }
        }
        result
    }

    /// Whether the result of the order with this identifier has been
    /// retrieved.
    fn is_told(&self, id: &OrderId) -> (told: bool)
        ensures
            told == self@.told.contains(*id),
    {
        let mut j: usize = 0;
        while j < self.told.len()
            invariant
                j <= self.told.len(),
                forall|k: int| 0 <= k < j ==> self.told@[k] != *id,
            decreases self.told.len() - j,
        {
            if self.told[j].value == id.value {
                return true;
            }
            j = j + 1;
        }
        false
    }

    /// How the order with this identifier stands, if the market has it.
    fn result_of(&self, id: &OrderId) -> (result: Option<OrderResult>)
        ensures
            match result {
                Some(outcome) => self@.outcome(*id) == Some(outcome@),
                None => self@.outcome(*id) is None,
            },
    {
        if let Some(x) = find_order(&self.buy_orders, *id) {
            let traded = x.traded_quantity();
            Some(OrderResult::new(OrderType::Buy, traded, self.cost_of(traded)))
        } else if let Some(x) = find_order(&self.sell_orders, *id) {
            let traded = x.traded_quantity();
            Some(OrderResult::new(OrderType::Sell, traded, self.cost_of(traded)))
        } else {
            None
        }
    }

    /// What `quantity` units cost at the unit price.
    fn cost_of(&self, quantity: u64) -> (cost: u128)
        ensures
            cost == quantity * self@.price,
    {
        proof {
            assert(quantity * self.price_per_unit <= u64::MAX * u64::MAX) by (nonlinear_arith)
                requires
                    0 <= quantity <= u64::MAX,
                    0 <= self.price_per_unit <= u64::MAX,
            ;
        }
        (quantity as u128) * (self.price_per_unit as u128)
    }

    /// Discards all orders, for the next tick.
    pub fn clear_state(&mut self)
        ensures
            final(self)@ == old(self)@.reset(),
            final(self)@.wf(),
    {
        self.buy_orders.clear();
        self.sell_orders.clear();
        self.told.clear();
        proof {
            assert(self@.buy =~= Seq::<Order>::empty());
            assert(self@.sell =~= Seq::<Order>::empty());
            assert(self@.told =~= Set::<OrderId>::empty());
        }
    }

    /// Whether the quantity that clearing would move can be counted in 64
    /// bits.
    pub fn volume_fits(&self) -> (fits: bool)
        requires
            self@.wf(),
        ensures
            fits == (self@.volume() <= u64::MAX),
    {
        let demand = remaining(&self.buy_orders);
        let supply = remaining(&self.sell_orders);
        demand <= u64::MAX as u128 || supply <= u64::MAX as u128
    }

    /// Clears the market: matches the buy orders against the sell orders,
    /// tier by tier from the highest priority down, and returns the quantity
    /// that changed hands.
    ///
    /// With no buy order or no sell order nothing is traded. The one failure
    /// is a quantity to trade that cannot be counted in 64 bits; the market
    /// is then left as it was.
    pub fn run_trade(&mut self) -> (result: Result<u64, ()>)
        requires
            old(self)@.wf(),
        ensures
            match result {
                Ok(traded) => traded == old(self)@.volume() && final(self)@ == old(
                    self,
                )@.cleared(),
                Err(_) => old(self)@.volume() > u64::MAX && final(self)@ == old(self)@,
            },
            final(self)@.wf(),
    {
        proof {
            self@.lemma_cleared();
        }
        if self.buy_orders.len() == 0 || self.sell_orders.len() == 0 {
            return Ok(0);
        }
        if !self.volume_fits() {
            return Err(());
        }
        let mut buy_tiers = split_tiers(&self.buy_orders);
        let mut sell_tiers = split_tiers(&self.sell_orders);
        let ghost buys = tier_views(buy_tiers@);
        let ghost sells = tier_views(sell_tiers@);
        let ghost outcome = settle(buys, sells, 0, 0);
        proof {
            lemma_tiers_wf(self@.buy);
            lemma_tiers_wf(self@.sell);
        }
        let mut total_final_traded: u64 = 0;
        let mut i: usize = 0;
        let mut j: usize = 0;
        while i < buy_tiers.len() && j < sell_tiers.len()
            invariant
                i <= buy_tiers.len(),
                j <= sell_tiers.len(),
                tiers_wf(tier_views(buy_tiers@)),
                tiers_wf(tier_views(sell_tiers@)),
                outcome.traded <= u64::MAX,
                settle(tier_views(buy_tiers@), tier_views(sell_tiers@), i as int, j as int).buys
                    == outcome.buys,
                settle(tier_views(buy_tiers@), tier_views(sell_tiers@), i as int, j as int).sells
                    == outcome.sells,
                settle(tier_views(buy_tiers@), tier_views(sell_tiers@), i as int, j as int).traded
                    + total_final_traded == outcome.traded,
            decreases buy_tiers.len() - i + sell_tiers.len() - j,
        {
            let ghost buys_before = tier_views(buy_tiers@);
            let ghost sells_before = tier_views(sell_tiers@);
            proof {
                assert(all_wf(buys_before[i as int]));
                assert(all_wf(sells_before[j as int]));
            }
            let total_buy = remaining(&buy_tiers[i]);
            let total_sell = remaining(&sell_tiers[j]);
            let ghost volume = least(total_buy as nat, total_sell as nat);
            if total_sell > total_buy {
                let total_traded = trade_loop(
                    &mut buy_tiers[i],
                    &mut sell_tiers[j],
                    total_buy as u64,
                );
                total_final_traded = total_final_traded + total_traded;
                i = i + 1;
            } else if total_sell < total_buy {
                let total_traded = trade_loop(
                    &mut sell_tiers[j],
                    &mut buy_tiers[i],
                    total_sell as u64,
                );
                total_final_traded = total_final_traded + total_traded;
                j = j + 1;
            } else {
                fill_all(&mut buy_tiers[i]);
                fill_all(&mut sell_tiers[j]);
                total_final_traded = total_final_traded + total_buy as u64;
                i = i + 1;
                j = j + 1;
            }
            proof {
                let bi = if total_buy <= total_sell { i - 1 } else { i as int };
                let sj = if total_sell <= total_buy { j - 1 } else { j as int };
                assert(tier_views(buy_tiers@) =~= buys_before.update(
                    bi,
                    rationed(buys_before[bi], volume),
                ));
                assert(tier_views(sell_tiers@) =~= sells_before.update(
                    sj,
                    rationed(sells_before[sj], volume),
                ));
                assert(tiers_wf(tier_views(buy_tiers@))) by {
                    assert forall|t: int| 0 <= t < buy_tiers@.len() implies all_wf(
                        #[trigger] tier_views(buy_tiers@)[t],
                    ) by {
                        if t != bi {
                            assert(all_wf(buys_before[t]));
                        }
                    }
                }
                assert(tiers_wf(tier_views(sell_tiers@))) by {
                    assert forall|t: int| 0 <= t < sell_tiers@.len() implies all_wf(
                        #[trigger] tier_views(sell_tiers@)[t],
                    ) by {
                        if t != sj {
                            assert(all_wf(sells_before[t]));
                        }
                    }
                }
            }
        }
        self.buy_orders = join_tiers(&buy_tiers);
        self.sell_orders = join_tiers(&sell_tiers);
        Ok(total_final_traded)
    }
}

impl TestMarket {
    /// Whether an order of the market carries the identifier.
    pub fn holds(&self, id: &OrderId) -> (held: bool)
        ensures
            held == self@.holds(*id),
    {
        find_order(&self.buy_orders, *id).is_some() || find_order(&self.sell_orders, *id).is_some()
    }

    /// The smallest identifier that no order of the market carries.
    fn least_free_id(&self) -> (id: OrderId)
        ensures
            self@.is_least_free(id),
    {
        let mut id = OrderId { value: 0 };
        while self.holds(&id)
            invariant
                forall|below: u128|
                    below < id.value ==> #[trigger] self@.holds(OrderId { value: below }),
            decreases self.buy_orders.len() + self.sell_orders.len() - id.value,
        {
            proof {
                assert forall|below: u128| below < id.value + 1 implies #[trigger] self@.holds(
                    OrderId { value: below },
                ) by {
                    if below == id.value {
                        assert(OrderId { value: below } == id);
                    }
                }
                self@.lemma_full_below(id.value as nat + 1);
            }
            id = OrderId { value: id.value + 1 };
        }
        id
    }

    /// Posts an order under the identifier `candidate`, or, if an order of
    /// the market carries that identifier already, under the smallest
    /// identifier that none carries; returns the identifier of the order.
    ///
    /// `tier` is the priority of the order: its priority weight without the
    /// fraction. `quantity` may be zero.
    pub fn register_order_with(
        &mut self,
        otype: OrderType,
        quantity: u64,
        tier: i64,
        candidate: OrderId,
    ) -> (id: OrderId)
        requires
            old(self)@.wf(),
        ensures
            !old(self)@.holds(candidate) ==> id == candidate,
            old(self)@.holds(candidate) ==> old(self)@.is_least_free(id),
            !old(self)@.holds(id),
            final(self)@ == old(self)@.with_order(
                otype,
                Order { id, requested: quantity as nat, filled: 0, tier: tier as int },
            ),
            final(self)@.wf(),
    {
        let id = if self.holds(&candidate) {
            self.least_free_id()
        } else {
            candidate
        };
        let order = OrderInfo::new(id, quantity, tier);
        proof {
            self@.lemma_with_order(otype, order@);
        }
        let ghost before = self@;
        match otype {
            OrderType::Buy => {
                self.buy_orders.push(order);
                proof {
                    assert(self@.buy =~= before.buy.push(order@));
                }
            },
            OrderType::Sell => {
                self.sell_orders.push(order);
                proof {
                    assert(self@.sell =~= before.sell.push(order@));
                }
            },
        }
        id
    }

    /// Posts an order under a fresh identifier and returns the identifier.
    ///
    /// The identifier is drawn at random; in the event that an order of the
    /// market carries it already, the order is posted as by
    /// [`TestMarket::register_order_with`].
    pub fn register_order(&mut self, otype: OrderType, quantity: u64, tier: i64) -> (id: OrderId)
        requires
            old(self)@.wf(),
        ensures
            !old(self)@.holds(id),
            final(self)@ == old(self)@.with_order(
                otype,
                Order { id, requested: quantity as nat, filled: 0, tier: tier as int },
            ),
            final(self)@.wf(),
    {
        let candidate = random_id();
        self.register_order_with(otype, quantity, tier, candidate)
    }
}

} // verus!
