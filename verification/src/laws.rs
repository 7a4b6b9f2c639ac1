//! What holds of the market whatever orders it is given.
//!
//! The laws are stated of the book that a market stands for; the contracts
//! of the market's operations say which book that is after each of them.

use crate::book::{distinct_ids, find, lemma_find, Book};
use crate::order::{Measure, Order, OrderId, OrderType, Outcome};
use crate::partition::{
    lemma_tiers_alike, lemma_tiers_descend, lemma_tiers_members, lemma_tiers_wf, tiers,
};
use crate::rationing::{lemma_shares_even, lemma_sum_zero};
use crate::settlement::{
    grown, lemma_flatten_alike, lemma_flatten_grown, lemma_settle_alike, lemma_settle_grown,
    lemma_settle_in_order, settle,
};
use crate::tier::{
    alike, all_wf, lemma_rationed, lemma_rationed_alike, measured, rationed, total, total_missing,
};
use vstd::prelude::*;

verus! {

/// Conservation: what clearing adds to the fills of the sell orders is what
/// it adds to the fills of the buy orders, and is the quantity that it
/// reports as traded.
pub proof fn law_conservation(book: Book)
    requires
        book.wf(),
    ensures
        total(book.cleared().sell, Measure::Filled) - total(book.sell, Measure::Filled)
            == book.volume(),
        total(book.cleared().buy, Measure::Filled) - total(book.buy, Measure::Filled)
            == book.volume(),
{
    book.lemma_cleared();
}

/// Bounds: after clearing, as before it, no order holds more than it asked
/// for.
pub proof fn law_bounds(book: Book)
    requires
        book.wf(),
    ensures
        all_wf(book.cleared().buy),
        all_wf(book.cleared().sell),
{
    book.lemma_cleared();
}

/// With no buy order or no sell order, nothing is traded and the book stays
/// as it is.
pub proof fn law_no_trade_on_empty_side(book: Book)
    requires
        book.buy.len() == 0 || book.sell.len() == 0,
    ensures
        book.volume() == 0,
        book.cleared() == book,
{
    if book.buy.len() == 0 {
        assert(measured(book.buy, Measure::Missing) =~= Seq::<nat>::empty());
    } else {
        assert(measured(book.sell, Measure::Missing) =~= Seq::<nat>::empty());
    }
}

/// Where the buyers together are missing what the sellers together are
/// missing, clearing fills every order of both sides.
pub proof fn law_full_clearing(book: Book)
    requires
        book.wf(),
        book.demand() == book.supply(),
    ensures
        forall|i: int|
            0 <= i < book.cleared().buy.len() ==> (#[trigger] book.cleared().buy[i]).filled
                == book.cleared().buy[i].requested,
        forall|i: int|
            0 <= i < book.cleared().sell.len() ==> (#[trigger] book.cleared().sell[i]).filled
                == book.cleared().sell[i].requested,
{
    book.lemma_cleared();
    let after = book.cleared();
    assert forall|i: int| 0 <= i < after.buy.len() implies (#[trigger] after.buy[i]).filled
        == after.buy[i].requested by {
        lemma_sum_zero(measured(after.buy, Measure::Missing), i);
        assert(after.buy[i].wf());
    }
    assert forall|i: int| 0 <= i < after.sell.len() implies (#[trigger] after.sell[i]).filled
        == after.sell[i].requested by {
        lemma_sum_zero(measured(after.sell, Measure::Missing), i);
        assert(after.sell[i].wf());
    }
}

/// Rationing is exact: a pool that is no more than the orders are missing
/// is placed to the last unit, no order is filled beyond what it asks for,
/// and none loses what it had.
pub proof fn law_rationing_exact(orders: Seq<Order>, pool: nat)
    requires
        all_wf(orders),
        pool <= total_missing(orders),
    ensures
        total(rationed(orders, pool), Measure::Filled) == total(orders, Measure::Filled) + pool,
        all_wf(rationed(orders, pool)),
        grown(orders, rationed(orders, pool)),
{
    lemma_rationed(orders, pool);
}

/// Clearing leaves nothing that could still be traded.
pub proof fn law_cleared_is_settled(book: Book)
    requires
        book.wf(),
    ensures
        book.cleared().volume() == 0,
{
    book.lemma_cleared();
}

/// The orders of a leading or trailing part have distinct identifiers if all
/// orders have.
proof fn lemma_distinct_parts(front: Seq<Order>, back: Seq<Order>)
    requires
        distinct_ids(front + back),
    ensures
        distinct_ids(front),
        distinct_ids(back),
        forall|id: OrderId| !(find(front, id) is Some && find(back, id) is Some),
{
    let all = front + back;
    assert forall|i: int, j: int| 0 <= i < j < front.len() implies (#[trigger] front[i]).id != (
    #[trigger] front[j]).id by {
        assert(all[i].id != all[j].id);
    }
    assert forall|i: int, j: int| 0 <= i < j < back.len() implies (#[trigger] back[i]).id != (
    #[trigger] back[j]).id by {
        assert(all[front.len() + i].id != all[front.len() + j].id);
    }
    assert forall|id: OrderId| !(find(front, id) is Some && find(back, id) is Some) by {
        lemma_find(front, id);
        lemma_find(back, id);
        if find(front, id) is Some && find(back, id) is Some {
            let i = choose|i: int| 0 <= i < front.len() && (#[trigger] front[i]).id == id;
            let j = choose|j: int| 0 <= j < back.len() && (#[trigger] back[j]).id == id;
            assert(all[i].id != all[front.len() + j].id);
        }
    }
}

/// Among orders with distinct identifiers, the order that carries an
/// identifier is the one that is found under it.
proof fn lemma_find_distinct(orders: Seq<Order>, at: int)
    requires
        distinct_ids(orders),
        0 <= at < orders.len(),
    ensures
        find(orders, orders[at].id) == Some(orders[at]),
{
    let id = orders[at].id;
    lemma_find(orders, id);
    let found = find(orders, id)->0;
    let other = choose|other: int| 0 <= other < orders.len() && orders[other] == found;
    if other < at {
        assert(orders[other].id != orders[at].id);
    } else if at < other {
        assert(orders[at].id != orders[other].id);
    }
}

/// One side of the book through clearing: an order is found after clearing
/// exactly if it was found before, and then asks for what it asked for, in
/// the tier it was in, and holds no less.
proof fn lemma_side_persists(
    orders: Seq<Order>,
    split: Seq<Order>,
    cleared: Seq<Order>,
    id: OrderId,
)
    requires
        distinct_ids(orders),
        forall|k: int| 0 <= k < split.len() ==> orders.contains(#[trigger] split[k]),
        grown(split, cleared),
        total(cleared, Measure::Carrying(id)) == total(orders, Measure::Carrying(id)),
    ensures
        match find(orders, id) {
            Some(before) => find(cleared, id) matches Some(after) && after.id == id
                && after.requested == before.requested && after.tier == before.tier
                && after.filled >= before.filled,
            None => find(cleared, id) is None,
        },
{
    lemma_find(orders, id);
    lemma_find(cleared, id);
    if find(orders, id) is Some {
        let after = find(cleared, id)->0;
        let k = choose|k: int| 0 <= k < cleared.len() && cleared[k] == after;
        assert(orders.contains(split[k]));
        let at = choose|at: int| 0 <= at < orders.len() && orders[at] == split[k];
        lemma_find_distinct(orders, at);
    }
}

/// Orders persist through clearing: an order is in the cleared book exactly
/// if it was in the book, on the side it was on; it asks for what it asked
/// for, in the tier it was in, and holds no less than it held.
pub proof fn law_orders_persist(book: Book, id: OrderId)
    requires
        book.wf(),
    ensures
        match find(book.buy, id) {
            Some(before) => find(book.cleared().buy, id) matches Some(after) && after.id == id
                && after.requested == before.requested && after.tier == before.tier
                && after.filled >= before.filled,
            None => find(book.cleared().buy, id) is None,
        },
        match find(book.sell, id) {
            Some(before) => find(book.cleared().sell, id) matches Some(after) && after.id == id
                && after.requested == before.requested && after.tier == before.tier
                && after.filled >= before.filled,
            None => find(book.cleared().sell, id) is None,
        },
        match book.answer(id) {
            Some(before) => book.cleared().answer(id) matches Some(after) && after.side
                == before.side && after.filled >= before.filled,
            None => book.cleared().answer(id) is None,
        },
{
    lemma_find(book.buy, id);
    lemma_find(book.sell, id);
    if book.buy.len() > 0 && book.sell.len() > 0 {
        let buys = tiers(book.buy);
        let sells = tiers(book.sell);
        book.lemma_cleared();
        lemma_distinct_parts(book.buy, book.sell);
        lemma_tiers_members(book.buy);
        lemma_tiers_members(book.sell);
        lemma_settle_grown(buys, sells, 0, 0);
        lemma_flatten_grown(buys, settle(buys, sells, 0, 0).buys);
        lemma_flatten_grown(sells, settle(buys, sells, 0, 0).sells);
        lemma_side_persists(book.buy, buys.flatten(), book.cleared().buy, id);
        lemma_side_persists(book.sell, sells.flatten(), book.cleared().sell, id);
    }
}

/// Whoever asks before clearing for an order that has just been posted is
/// told that nothing was traded; every other order is as it was.
pub proof fn law_posted_order_is_unfilled(
    book: Book,
    side: OrderType,
    order: Order,
    other: OrderId,
)
    requires
        book.wf(),
        !book.holds(order.id),
        order.filled == 0,
        other != order.id,
    ensures
        book.with_order(side, order).answer(order.id) == Some(
            Outcome { side, filled: 0, cost: 0 },
        ),
        book.with_order(side, order).answer(other) == book.answer(other),
{
    let after = book.with_order(side, order);
    match side {
        OrderType::Buy => {
            assert(after.buy.drop_last() =~= book.buy);
        },
        OrderType::Sell => {
            assert(after.sell.drop_last() =~= book.sell);
        },
    }
    assert(0 * book.price == 0) by (nonlinear_arith);
}

/// A result is told once: whoever asks again is told nothing, whether or
/// not the market has cleared in between. Asking changes nothing about the
/// orders, and nothing about what the owners of other orders are told.
pub proof fn law_results_are_told_once(book: Book, id: OrderId, other: OrderId)
    requires
        book.wf(),
        other != id,
    ensures
        book.asked(id).answer(id) is None,
        book.asked(id).cleared().answer(id) is None,
        book.asked(id).buy == book.buy,
        book.asked(id).sell == book.sell,
        book.asked(id).answer(other) == book.answer(other),
        book.asked(id).wf(),
{
    let after = book.asked(id);
    lemma_find(book.buy, id);
    lemma_find(book.sell, id);
    after.lemma_cleared();
    lemma_find(after.cleared().buy, id);
    lemma_find(after.cleared().sell, id);
}

/// After the state has been cleared, no identifier has a result.
pub proof fn law_reset_forgets(book: Book, id: OrderId)
    ensures
        book.reset().answer(id) is None,
        !book.reset().holds(id),
        book.reset().wf(),
{
}

/// Clearing is determined by what the orders ask for, what they hold and
/// their tiers, in the order in which they stand in the book: two books
/// that agree in these are cleared alike, and the same quantity is traded,
/// whatever the identifiers of their orders are.
pub proof fn law_clearing_is_determined(first: Book, second: Book)
    requires
        alike(first.buy, second.buy),
        alike(first.sell, second.sell),
    ensures
        first.volume() == second.volume(),
        alike(first.cleared().buy, second.cleared().buy),
        alike(first.cleared().sell, second.cleared().sell),
{
    lemma_rationed_alike(first.buy, second.buy, 0);
    lemma_rationed_alike(first.sell, second.sell, 0);
    if first.buy.len() > 0 && first.sell.len() > 0 {
        lemma_tiers_alike(first.buy, second.buy);
        lemma_tiers_alike(first.sell, second.sell);
        lemma_settle_alike(
            tiers(first.buy),
            tiers(first.sell),
            tiers(second.buy),
            tiers(second.sell),
            0,
            0,
        );
        lemma_flatten_alike(
            settle(tiers(first.buy), tiers(first.sell), 0, 0).buys,
            settle(tiers(second.buy), tiers(second.sell), 0, 0).buys,
        );
        lemma_flatten_alike(
            settle(tiers(first.buy), tiers(first.sell), 0, 0).sells,
            settle(tiers(second.buy), tiers(second.sell), 0, 0).sells,
        );
    }
}

/// Rationing is even-handed. Next to an order that is left short, no order
/// is given more than one unit more, and no later order is given more at
/// all: the orders of a tier are raised together, and the units that do not
/// go round go to the earliest.
pub proof fn law_rationing_even(orders: Seq<Order>, pool: nat, short: int, other: int)
    requires
        all_wf(orders),
        0 <= short < orders.len(),
        0 <= other < orders.len(),
        rationed(orders, pool)[short].filled < orders[short].requested,
    ensures
        rationed(orders, pool)[other].filled - orders[other].filled <= rationed(
            orders,
            pool,
        )[short].filled - orders[short].filled + 1,
        short < other ==> rationed(orders, pool)[other].filled - orders[other].filled
            <= rationed(orders, pool)[short].filled - orders[short].filled,
{
    assert(orders[short].wf());
    lemma_shares_even(crate::tier::missing_of(orders), pool, short, other);
}

/// Priority: on each side the tiers are served from the highest down. The
/// orders of an earlier tier are of higher priority than those of a later
/// one, and clearing gives a tier something only if it leaves no order of
/// an earlier tier of that side short.
pub proof fn law_higher_tiers_first(book: Book, earlier: int, later: int)
    requires
        book.wf(),
        0 <= earlier < later,
    ensures
        later < tiers(book.buy).len() ==> {
            &&& tiers(book.buy)[earlier][0].tier > tiers(book.buy)[later][0].tier
            &&& settle(tiers(book.buy), tiers(book.sell), 0, 0).buys[later] != tiers(
                book.buy,
            )[later] ==> total_missing(
                settle(tiers(book.buy), tiers(book.sell), 0, 0).buys[earlier],
            ) == 0
        },
        later < tiers(book.sell).len() ==> {
            &&& tiers(book.sell)[earlier][0].tier > tiers(book.sell)[later][0].tier
            &&& settle(tiers(book.buy), tiers(book.sell), 0, 0).sells[later] != tiers(
                book.sell,
            )[later] ==> total_missing(
                settle(tiers(book.buy), tiers(book.sell), 0, 0).sells[earlier],
            ) == 0
        },
{
    let buys = tiers(book.buy);
    let sells = tiers(book.sell);
    lemma_tiers_descend(book.buy);
    lemma_tiers_descend(book.sell);
    lemma_tiers_wf(book.buy);
    lemma_tiers_wf(book.sell);
    lemma_settle_in_order(buys, sells, 0, 0);
    if later < buys.len() {
        assert(buys[earlier][0].tier > buys[later][0].tier);
        if settle(buys, sells, 0, 0).buys[later] != buys[later] {
            assert(total_missing(settle(buys, sells, 0, 0).buys[earlier]) == 0);
        }
    }
    if later < sells.len() {
        assert(sells[earlier][0].tier > sells[later][0].tier);
        if settle(buys, sells, 0, 0).sells[later] != sells[later] {
            assert(total_missing(settle(buys, sells, 0, 0).sells[earlier]) == 0);
        }
    }
}

} // verus!
