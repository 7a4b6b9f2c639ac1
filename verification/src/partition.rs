//! Splitting the orders of one side into priority tiers, highest tier first.
//!
//! A tier holds all orders of one priority, in the order in which they stand
//! in the book.

use crate::order::{Measure, Order, OrderInfo};
use crate::rationing::lemma_sum_push;
use crate::tier::{alike, all_wf, lemma_total_concat, measured, total, views};
use vstd::prelude::*;

verus! {

/// The orders of tier `key`, in their order.
pub open spec fn in_tier(orders: Seq<Order>, key: int) -> Seq<Order>
    decreases orders.len(),
{
    if orders.len() == 0 {
        Seq::empty()
    } else if orders.last().tier == key {
        in_tier(orders.drop_last(), key).push(orders.last())
    } else {
        in_tier(orders.drop_last(), key)
    }
}

/// The orders of all tiers but `key`, in their order.
pub open spec fn off_tier(orders: Seq<Order>, key: int) -> Seq<Order>
    decreases orders.len(),
{
    if orders.len() == 0 {
        Seq::empty()
    } else if orders.last().tier == key {
        off_tier(orders.drop_last(), key)
    } else {
        off_tier(orders.drop_last(), key).push(orders.last())
    }
}

/// The highest tier among the orders.
pub open spec fn top_tier(orders: Seq<Order>) -> int
    decreases orders.len(),
{
    if orders.len() == 0 {
        0
    } else if orders.len() == 1 || orders.last().tier > top_tier(orders.drop_last()) {
        orders.last().tier
    } else {
        top_tier(orders.drop_last())
    }
}

/// The orders split into their tiers, from the highest tier down.
pub open spec fn tiers(orders: Seq<Order>) -> Seq<Seq<Order>>
    decreases orders.len(),
{
    let lower = off_tier(orders, top_tier(orders));
    if lower.len() < orders.len() {
        seq![in_tier(orders, top_tier(orders))] + tiers(lower)
    } else {
        Seq::empty()
    }
}

/// The models of a sequence of tiers.
pub open spec fn tier_views(tiers: Seq<Vec<OrderInfo>>) -> Seq<Seq<Order>> {
    Seq::new(tiers.len(), |t: int| views(tiers[t]@))
}

/// Every order stands in the tier or off it.
pub proof fn lemma_split_len(orders: Seq<Order>, key: int)
    ensures
        in_tier(orders, key).len() + off_tier(orders, key).len() == orders.len(),
    decreases orders.len(),
{
    if orders.len() > 0 {
        lemma_split_len(orders.drop_last(), key);
    }
}

/// The highest tier is the tier of some order and no order's tier is higher.
pub proof fn lemma_top_tier(orders: Seq<Order>)
    requires
        orders.len() > 0,
    ensures
        in_tier(orders, top_tier(orders)).len() > 0,
        off_tier(orders, top_tier(orders)).len() < orders.len(),
        forall|i: int| 0 <= i < orders.len() ==> (#[trigger] orders[i]).tier <= top_tier(orders),
    decreases orders.len(),
{
    if orders.len() > 1 {
        lemma_top_tier(orders.drop_last());
        assert forall|i: int| 0 <= i < orders.len() implies (#[trigger] orders[i]).tier <= top_tier(
            orders,
        ) by {
            if i < orders.len() - 1 {
                assert(orders.drop_last()[i].tier <= top_tier(orders.drop_last()));
            }
        }
    }
    lemma_split_len(orders, top_tier(orders));
    lemma_in_tier_grows(orders, top_tier(orders));
}

/// A tier does not shrink when an order is added at the end.
pub proof fn lemma_in_tier_grows(orders: Seq<Order>, key: int)
    requires
        orders.len() > 0,
    ensures
        in_tier(orders.drop_last(), key).len() <= in_tier(orders, key).len(),
        orders.last().tier == key ==> in_tier(orders, key).len() > 0,
{
}

/// Each order of a tier is one of the orders, and of that tier; each order
/// off it is one of the orders, and of another tier.
pub proof fn lemma_split_members(orders: Seq<Order>, key: int)
    ensures
        forall|i: int|
            0 <= i < in_tier(orders, key).len() ==> orders.contains(
                #[trigger] in_tier(orders, key)[i],
            ) && in_tier(orders, key)[i].tier == key,
        forall|i: int|
            0 <= i < off_tier(orders, key).len() ==> orders.contains(
                #[trigger] off_tier(orders, key)[i],
            ) && off_tier(orders, key)[i].tier != key,
    decreases orders.len(),
{
    if orders.len() > 0 {
        let rest = orders.drop_last();
        lemma_split_members(rest, key);
        assert forall|i: int| 0 <= i < in_tier(orders, key).len() implies orders.contains(
            #[trigger] in_tier(orders, key)[i],
        ) && in_tier(orders, key)[i].tier == key by {
            if i < in_tier(rest, key).len() {
                let order = in_tier(rest, key)[i];
                assert(rest.contains(order));
                let at = choose|at: int| 0 <= at < rest.len() && rest[at] == order;
                assert(orders[at] == order);
            } else {
                assert(orders[orders.len() - 1] == orders.last());
            }
        }
        assert forall|i: int| 0 <= i < off_tier(orders, key).len() implies orders.contains(
            #[trigger] off_tier(orders, key)[i],
        ) && off_tier(orders, key)[i].tier != key by {
            if i < off_tier(rest, key).len() {
                let order = off_tier(rest, key)[i];
                assert(rest.contains(order));
                let at = choose|at: int| 0 <= at < rest.len() && rest[at] == order;
                assert(orders[at] == order);
            } else {
                assert(orders[orders.len() - 1] == orders.last());
            }
        }
    }
}

/// What a tier and the orders off it count for is what all orders count for.
pub proof fn lemma_split_total(orders: Seq<Order>, key: int, measure: Measure)
    ensures
        total(in_tier(orders, key), measure) + total(off_tier(orders, key), measure) == total(
            orders,
            measure,
        ),
    decreases orders.len(),
{
    if orders.len() > 0 {
        let rest = orders.drop_last();
        lemma_split_total(rest, key, measure);
        let weight = orders.last().weigh(measure);
        assert(measured(orders, measure) =~= measured(rest, measure).push(weight));
        lemma_sum_push(measured(rest, measure), weight);
        if orders.last().tier == key {
            assert(measured(in_tier(orders, key), measure) =~= measured(
                in_tier(rest, key),
                measure,
            ).push(weight));
            lemma_sum_push(measured(in_tier(rest, key), measure), weight);
        } else {
            assert(measured(off_tier(orders, key), measure) =~= measured(
                off_tier(rest, key),
                measure,
            ).push(weight));
            lemma_sum_push(measured(off_tier(rest, key), measure), weight);
        }
    } else {
        assert(measured(orders, measure) =~= Seq::<nat>::empty());
    }
}

/// The tiers together count for what the orders count for: splitting loses
/// no order and makes none up.
pub proof fn lemma_tiers_total(orders: Seq<Order>, measure: Measure)
    ensures
        total(tiers(orders).flatten(), measure) == total(orders, measure),
    decreases orders.len(),
{
    if orders.len() > 0 {
        let key = top_tier(orders);
        lemma_top_tier(orders);
        lemma_tiers_total(off_tier(orders, key), measure);
        lemma_split_total(orders, key, measure);
        let first = seq![in_tier(orders, key)];
        let lower = tiers(off_tier(orders, key));
        vstd::seq_lib::lemma_flatten_concat(first, lower);
        first.lemma_flatten_one_element();
        lemma_total_concat(first.flatten(), lower.flatten(), measure);
    } else {
        assert(tiers(orders) =~= Seq::<Seq<Order>>::empty());
        assert(tiers(orders).flatten() =~= orders);
    }
}

/// The tiers of well-formed orders are well formed.
pub proof fn lemma_tiers_wf(orders: Seq<Order>)
    requires
        all_wf(orders),
    ensures
        forall|t: int| 0 <= t < tiers(orders).len() ==> all_wf(#[trigger] tiers(orders)[t]),
    decreases orders.len(),
{
    if orders.len() > 0 {
        let key = top_tier(orders);
        lemma_top_tier(orders);
        lemma_split_members(orders, key);
        let lower = off_tier(orders, key);
        let top = in_tier(orders, key);
        assert(all_wf(lower)) by {
            assert forall|i: int| 0 <= i < lower.len() implies (#[trigger] lower[i]).wf() by {
                assert(orders.contains(lower[i]));
            }
        }
        assert(all_wf(top)) by {
            assert forall|i: int| 0 <= i < top.len() implies (#[trigger] top[i]).wf() by {
                assert(orders.contains(top[i]));
            }
        }
        lemma_tiers_wf(lower);
        assert forall|t: int| 0 <= t < tiers(orders).len() implies all_wf(
            #[trigger] tiers(orders)[t],
        ) by {
            if t > 0 {
                assert(tiers(orders)[t] == tiers(lower)[t - 1]);
            }
        }
    }
}

/// Finds the highest tier among the orders.
fn highest_tier(orders: &Vec<OrderInfo>) -> (key: i64)
    requires
        orders.len() > 0,
    ensures
        key == top_tier(views(orders@)),
{
    let ghost all = views(orders@);
    let mut key = orders[0].tier();
    let mut j: usize = 1;
    proof {
        assert(all.take(1).drop_last() =~= all.take(0));
    }
    while j < orders.len()
        invariant
            1 <= j <= orders.len(),
            all == views(orders@),
            key == top_tier(all.take(j as int)),
        decreases orders.len() - j,
    {
        proof {
            assert(all.take(j + 1).drop_last() =~= all.take(j as int));
        }
        if orders[j].tier() > key {
            key = orders[j].tier();
        }
        j = j + 1;
    }
    proof {
        assert(all.take(j as int) =~= all);
    }
    key
}

/// Parts the orders of tier `key` from the others, keeping the order of each.
fn take_tier(orders: &Vec<OrderInfo>, key: i64) -> (parts: (Vec<OrderInfo>, Vec<OrderInfo>))
    ensures
        views(parts.0@) == in_tier(views(orders@), key as int),
        views(parts.1@) == off_tier(views(orders@), key as int),
{
    let ghost all = views(orders@);
    let mut tier: Vec<OrderInfo> = Vec::new();
    let mut rest: Vec<OrderInfo> = Vec::new();
    let mut j: usize = 0;
    proof {
        assert(views(tier@) =~= in_tier(all.take(0), key as int));
        assert(views(rest@) =~= off_tier(all.take(0), key as int));
    }
    while j < orders.len()
        invariant
            j <= orders.len(),
            all == views(orders@),
            views(tier@) == in_tier(all.take(j as int), key as int),
            views(rest@) == off_tier(all.take(j as int), key as int),
        decreases orders.len() - j,
    {
        let ghost tier_before = tier@;
        let ghost rest_before = rest@;
        let order = orders[j];
        if order.tier() == key {
            tier.push(order);
        } else {
            rest.push(order);
        }
        proof {
            assert(all.take(j + 1).drop_last() =~= all.take(j as int));
            assert(all.take(j + 1).last() == order@);
            if order@.tier == key {
                assert(views(tier@) =~= views(tier_before).push(order@));
            } else {
                assert(views(rest@) =~= views(rest_before).push(order@));
            }
        }
        j = j + 1;
    }
    proof {
        assert(all.take(j as int) =~= all);
    }
    (tier, rest)
}

/// Splits the orders into their tiers, from the highest tier down.
pub fn split_tiers(orders: &Vec<OrderInfo>) -> (split: Vec<Vec<OrderInfo>>)
    ensures
        tier_views(split@) == tiers(views(orders@)),
{
    let mut split: Vec<Vec<OrderInfo>> = Vec::new();
    let mut pending: Vec<OrderInfo> = orders.clone();
    proof {
        assert(pending@ =~= orders@);
        assert(tier_views(split@) + tiers(views(pending@)) =~= tiers(views(orders@)));
    }
    while pending.len() > 0
        invariant
            tier_views(split@) + tiers(views(pending@)) == tiers(views(orders@)),
        decreases pending.len(),
    {
        let ghost split_before = split@;
        let ghost waiting = views(pending@);
        let key = highest_tier(&pending);
        let (tier, rest) = take_tier(&pending, key);
        proof {
            lemma_top_tier(waiting);
        }
        split.push(tier);
        pending = rest;
        proof {
            assert(tier_views(split@) =~= tier_views(split_before).push(
                in_tier(waiting, key as int),
            ));
            assert(tier_views(split@) + tiers(views(pending@)) =~= tier_views(split_before)
                + tiers(waiting));
        }
    }
    proof {
        assert(tiers(views(pending@)) =~= Seq::<Seq<Order>>::empty());
        assert(tier_views(split@) + tiers(views(pending@)) =~= tier_views(split@));
    }
    split
}

/// Puts the orders of all tiers in one sequence, tier after tier.
pub fn join_tiers(split: &Vec<Vec<OrderInfo>>) -> (orders: Vec<OrderInfo>)
    ensures
        views(orders@) == tier_views(split@).flatten(),
{
    let ghost all = tier_views(split@);
    let mut orders: Vec<OrderInfo> = Vec::new();
    let mut t: usize = 0;
    proof {
        assert(views(orders@) =~= all.take(0).flatten());
    }
    while t < split.len()
        invariant
            t <= split.len(),
            all == tier_views(split@),
            views(orders@) == all.take(t as int).flatten(),
        decreases split.len() - t,
    {
        let ghost joined = views(orders@);
        let mut j: usize = 0;
        while j < split[t].len()
            invariant
                t < split.len(),
                j <= split[t as int].len(),
                all == tier_views(split@),
                views(orders@) == joined + all[t as int].take(j as int),
            decreases split[t as int].len() - j,
        {
            let ghost before = views(orders@);
            orders.push(split[t][j]);
            proof {
                assert(views(orders@) =~= before.push(all[t as int][j as int]));
                assert(all[t as int].take(j + 1) =~= all[t as int].take(j as int).push(
                    all[t as int][j as int],
                ));
            }
            j = j + 1;
        }
        proof {
            assert(all[t as int].take(j as int) =~= all[t as int]);
            assert(all.take(t + 1) =~= all.take(t as int).push(all[t as int]));
            all.take(t as int).lemma_flatten_push(all[t as int]);
        }
        t = t + 1;
    }
    proof {
        assert(all.take(t as int) =~= all);
    }
    orders
}

/// Every order of the tiers is one of the orders that were split.
pub proof fn lemma_tiers_members(orders: Seq<Order>)
    ensures
        forall|k: int|
            0 <= k < tiers(orders).flatten().len() ==> orders.contains(
                #[trigger] tiers(orders).flatten()[k],
            ),
    decreases orders.len(),
{
    if orders.len() > 0 {
        let key = top_tier(orders);
        let top = in_tier(orders, key);
        let lower = off_tier(orders, key);
        lemma_top_tier(orders);
        lemma_split_members(orders, key);
        lemma_tiers_members(lower);
        vstd::seq_lib::lemma_flatten_concat(seq![top], tiers(lower));
        seq![top].lemma_flatten_one_element();
        let joined = tiers(orders).flatten();
        assert forall|k: int| 0 <= k < joined.len() implies orders.contains(
            #[trigger] joined[k],
        ) by {
            if k < top.len() {
                assert(orders.contains(top[k]));
            } else {
                let order = tiers(lower).flatten()[k - top.len()];
                assert(lower.contains(order));
                let at = choose|at: int| 0 <= at < lower.len() && lower[at] == order;
                assert(orders.contains(lower[at]));
            }
        }
    } else {
        assert(tiers(orders) =~= Seq::<Seq<Order>>::empty());
        assert(tiers(orders).flatten() =~= orders);
    }
}

/// Every tier of the one is alike to the tier of the other in its place.
pub open spec fn tiers_alike(left: Seq<Seq<Order>>, right: Seq<Seq<Order>>) -> bool {
    &&& left.len() == right.len()
    &&& forall|t: int|
        #![trigger left[t]]
        #![trigger right[t]]
        0 <= t < left.len() ==> alike(left[t], right[t])
}

/// Orders that are alike part alike at every tier, and have the same
/// highest tier.
pub proof fn lemma_split_alike(left: Seq<Order>, right: Seq<Order>, key: int)
    requires
        alike(left, right),
    ensures
        alike(in_tier(left, key), in_tier(right, key)),
        alike(off_tier(left, key), off_tier(right, key)),
        top_tier(left) == top_tier(right),
    decreases left.len(),
{
    if left.len() > 0 {
        assert(alike(left.drop_last(), right.drop_last())) by {
            assert forall|k: int|
                #![trigger left.drop_last()[k]]
                #![trigger right.drop_last()[k]]
                0 <= k < left.len() - 1 implies {
                &&& left.drop_last()[k].requested == right.drop_last()[k].requested
                &&& left.drop_last()[k].filled == right.drop_last()[k].filled
                &&& left.drop_last()[k].tier == right.drop_last()[k].tier
            } by {
                assert(left[k].tier == right[k].tier);
            }
        }
        lemma_split_alike(left.drop_last(), right.drop_last(), key);
        assert(left[left.len() - 1].tier == right[right.len() - 1].tier);
        let left_in = in_tier(left, key);
        let right_in = in_tier(right, key);
        assert forall|k: int|
            #![trigger left_in[k]]
            #![trigger right_in[k]]
            0 <= k < left_in.len() implies {
            &&& left_in[k].requested == right_in[k].requested
            &&& left_in[k].filled == right_in[k].filled
            &&& left_in[k].tier == right_in[k].tier
        } by {
            if k < in_tier(left.drop_last(), key).len() {
                assert(in_tier(left.drop_last(), key)[k].tier == in_tier(
                    right.drop_last(),
                    key,
                )[k].tier);
            }
        }
        let left_off = off_tier(left, key);
        let right_off = off_tier(right, key);
        assert forall|k: int|
            #![trigger left_off[k]]
            #![trigger right_off[k]]
            0 <= k < left_off.len() implies {
            &&& left_off[k].requested == right_off[k].requested
            &&& left_off[k].filled == right_off[k].filled
            &&& left_off[k].tier == right_off[k].tier
        } by {
            if k < off_tier(left.drop_last(), key).len() {
                assert(off_tier(left.drop_last(), key)[k].tier == off_tier(
                    right.drop_last(),
                    key,
                )[k].tier);
            }
        }
    } else {
        assert(right.len() == 0);
    }
}

/// Orders that are alike split into tiers that are alike.
pub proof fn lemma_tiers_alike(left: Seq<Order>, right: Seq<Order>)
    requires
        alike(left, right),
    ensures
        tiers_alike(tiers(left), tiers(right)),
    decreases left.len(),
{
    let key = top_tier(left);
    lemma_split_alike(left, right, key);
    if left.len() > 0 {
        lemma_top_tier(left);
        lemma_top_tier(right);
        lemma_tiers_alike(off_tier(left, key), off_tier(right, key));
        let left_tiers = tiers(left);
        let right_tiers = tiers(right);
        assert forall|t: int|
            #![trigger left_tiers[t]]
            #![trigger right_tiers[t]]
            0 <= t < left_tiers.len() implies alike(left_tiers[t], right_tiers[t]) by {
            if t > 0 {
                assert(left_tiers[t] == tiers(off_tier(left, key))[t - 1]);
                assert(right_tiers[t] == tiers(off_tier(right, key))[t - 1]);
            }
        }
    } else {
        assert(right.len() == 0);
    }
}

/// Every order of every tier is one of the orders that were split.
pub proof fn lemma_tier_members(orders: Seq<Order>)
    ensures
        forall|t: int, k: int|
            0 <= t < tiers(orders).len() && 0 <= k < tiers(orders)[t].len() ==> orders.contains(
                #[trigger] tiers(orders)[t][k],
            ),
    decreases orders.len(),
{
    if orders.len() > 0 {
        let key = top_tier(orders);
        let lower = off_tier(orders, key);
        lemma_top_tier(orders);
        lemma_split_members(orders, key);
        lemma_tier_members(lower);
        assert forall|t: int, k: int|
            0 <= t < tiers(orders).len() && 0 <= k < tiers(orders)[t].len() implies orders.contains(
            #[trigger] tiers(orders)[t][k],
        ) by {
            if t > 0 {
                let order = tiers(lower)[t - 1][k];
                assert(lower.contains(order));
                let at = choose|at: int| 0 <= at < lower.len() && lower[at] == order;
                assert(orders.contains(lower[at]));
            } else {
                assert(orders.contains(in_tier(orders, key)[k]));
            }
        }
    }
}

/// The tiers come from the highest down: no tier is empty, the orders of a
/// tier are all of one priority, and that priority is higher than the
/// priority of any later tier.
pub proof fn lemma_tiers_descend(orders: Seq<Order>)
    ensures
        forall|t: int| 0 <= t < tiers(orders).len() ==> (#[trigger] tiers(orders)[t]).len() > 0,
        forall|t: int, k: int|
            0 <= t < tiers(orders).len() && 0 <= k < tiers(orders)[t].len() ==> (
            #[trigger] tiers(orders)[t][k]).tier == tiers(orders)[t][0].tier,
        forall|t: int, u: int|
            0 <= t < u < tiers(orders).len() ==> (#[trigger] tiers(orders)[t])[0].tier > (
            #[trigger] tiers(orders)[u])[0].tier,
    decreases orders.len(),
{
    if orders.len() > 0 {
        let key = top_tier(orders);
        let lower = off_tier(orders, key);
        let split = tiers(orders);
        lemma_top_tier(orders);
        lemma_split_members(orders, key);
        lemma_tiers_descend(lower);
        lemma_tier_members(lower);
        assert forall|t: int| 0 < t < split.len() implies (#[trigger] split[t])[0].tier < key by {
            assert(split[t] == tiers(lower)[t - 1]);
            let order = tiers(lower)[t - 1][0];
            assert(lower.contains(order));
            let at = choose|at: int| 0 <= at < lower.len() && lower[at] == order;
            assert(orders.contains(lower[at]));
            let place = choose|place: int| 0 <= place < orders.len() && orders[place] == order;
            assert(orders[place].tier <= key);
        }
        assert forall|t: int| 0 <= t < split.len() implies (#[trigger] split[t]).len() > 0 by {
            if t > 0 {
                assert(split[t] == tiers(lower)[t - 1]);
            }
        }
        assert forall|t: int, k: int|
            0 <= t < split.len() && 0 <= k < split[t].len() implies (#[trigger] split[t][k]).tier
            == split[t][0].tier by {
            if t > 0 {
                assert(split[t] == tiers(lower)[t - 1]);
                assert(tiers(lower)[t - 1][k].tier == tiers(lower)[t - 1][0].tier);
            }
        }
        assert forall|t: int, u: int| 0 <= t < u < split.len() implies (#[trigger] split[t])[0].tier
            > (#[trigger] split[u])[0].tier by {
            assert(split[u][0].tier < key);
            if t > 0 {
                assert(split[t] == tiers(lower)[t - 1]);
                assert(split[u] == tiers(lower)[u - 1]);
            }
        }
    }
}

} // verus!
