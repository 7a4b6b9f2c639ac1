//! Rationing a pool of units over the orders of one priority tier.

use crate::order::{Measure, Order, OrderId, OrderInfo};
use crate::rationing::{
    capped_sum, count_above, dealt, is_fill_level, least, lemma_capped_sum_bound,
    lemma_capped_sum_concat, lemma_capped_sum_raise, lemma_capped_sum_shift,
    lemma_capped_sum_step, lemma_count_above_prefix, lemma_count_above_shift, lemma_dealt_shift,
    lemma_fill_level_unique, lemma_none_above, lemma_share_bounded, lemma_shares_sum,
    lemma_sum_concat, lemma_sum_pointwise, needs_above, share, shares, sum,
};
use vstd::prelude::*;

verus! {

/// The models of a sequence of orders.
pub open spec fn views(orders: Seq<OrderInfo>) -> Seq<Order> {
    orders.map_values(|order: OrderInfo| order@)
}

/// No order holds more than it asked for.
pub open spec fn all_wf(orders: Seq<Order>) -> bool {
    forall|i: int| 0 <= i < orders.len() ==> (#[trigger] orders[i]).wf()
}

/// What each order counts for under a measure.
pub open spec fn measured(orders: Seq<Order>, measure: Measure) -> Seq<nat> {
    Seq::new(orders.len(), |i: int| orders[i].weigh(measure))
}

/// What the orders count for together under a measure.
pub open spec fn total(orders: Seq<Order>, measure: Measure) -> nat {
    sum(measured(orders, measure))
}

/// What each order is still missing.
pub open spec fn missing_of(orders: Seq<Order>) -> Seq<nat> {
    measured(orders, Measure::Missing)
}

/// What the orders are missing together.
pub open spec fn total_missing(orders: Seq<Order>) -> nat {
    total(orders, Measure::Missing)
}

/// The orders after each has been credited `given[i]` units.
pub open spec fn credited(orders: Seq<Order>, given: Seq<nat>) -> Seq<Order> {
    Seq::new(orders.len(), |i: int| orders[i].credit(given[i]))
}

/// The orders after `pool` units have been rationed over them: filled as
/// evenly as their needs allow, the remainder going to the earliest orders
/// that are still short.
pub open spec fn rationed(orders: Seq<Order>, pool: nat) -> Seq<Order> {
    credited(orders, shares(missing_of(orders), pool))
}

/// Counts the orders that are not yet filled.
fn count_unfilled(recvarray: &Vec<OrderInfo>) -> (count: usize)
    requires
        all_wf(views(recvarray@)),
    ensures
        count == count_above(missing_of(views(recvarray@)), 0),
{
    let ghost needs = missing_of(views(recvarray@));
    let mut count: usize = 0;
    let mut j: usize = 0;
    while j < recvarray.len()
        invariant
            j <= recvarray.len(),
            needs == missing_of(views(recvarray@)),
            all_wf(views(recvarray@)),
            count == count_above(needs.take(j as int), 0),
            count <= j,
        decreases recvarray.len() - j,
    {
        proof {
            assert(needs.take(j + 1).drop_last() =~= needs.take(j as int));
            assert(views(recvarray@)[j as int].wf());
        }
        if recvarray[j].traded_quantity() != recvarray[j].required_quantity() {
            count = count + 1;
        }
        j = j + 1;
    }
    proof {
        assert(needs.take(j as int) =~= needs);
    }
    count
}

/// Gives every order `chunk` units, or what it is missing if that is less,
/// and returns how many units that took.
fn give_each(recvarray: &mut Vec<OrderInfo>, chunk: u64) -> (distributed: u64)
    requires
        all_wf(views(old(recvarray)@)),
        capped_sum(missing_of(views(old(recvarray)@)), chunk as nat) <= u64::MAX,
    ensures
        views(final(recvarray)@) == credited(
            views(old(recvarray)@),
            Seq::new(
                old(recvarray)@.len(),
                |i: int| least(missing_of(views(old(recvarray)@))[i], chunk as nat),
            ),
        ),
        distributed == capped_sum(missing_of(views(old(recvarray)@)), chunk as nat),
{
    let ghost olds = views(recvarray@);
    let ghost needs = missing_of(olds);
    let n = recvarray.len();
    let mut distributed: u64 = 0;
    let mut j: usize = 0;
    while j < n
        invariant
            j <= n,
            n == recvarray.len(),
            olds.len() == n,
            needs == missing_of(olds),
            all_wf(olds),
            capped_sum(needs, chunk as nat) <= u64::MAX,
            distributed == capped_sum(needs.take(j as int), chunk as nat),
            forall|i: int|
                0 <= i < j ==> recvarray@[i]@ == olds[i].credit(least(needs[i], chunk as nat)),
            forall|i: int| j <= i < n ==> recvarray@[i]@ == olds[i],
        decreases n - j,
    {
        proof {
            assert(needs.take(j + 1).drop_last() =~= needs.take(j as int));
            assert(olds[j as int].wf());
            assert(needs =~= needs.take(j + 1) + needs.skip(j + 1));
            lemma_capped_sum_concat(needs.take(j + 1), needs.skip(j + 1), chunk as nat);
        }
        let missing = recvarray[j].missing_quantity();
        let give = if missing < chunk {
            missing
        } else {
            chunk
        };
        recvarray[j].credit(give);
        distributed = distributed + give;
        j = j + 1;
    }
    proof {
        assert(needs.take(j as int) =~= needs);
        assert(views(recvarray@) =~= credited(
            olds,
            Seq::new(n as nat, |i: int| least(needs[i], chunk as nat)),
        ));
    }
    distributed
}

/// Gives one unit each to the first `remainder` orders that are not yet
/// filled, and returns how many units that took.
fn give_units(recvarray: &mut Vec<OrderInfo>, remainder: u64) -> (distributed: u64)
    requires
        all_wf(views(old(recvarray)@)),
    ensures
        views(final(recvarray)@) == credited(
            views(old(recvarray)@),
            Seq::new(
                old(recvarray)@.len(),
                |i: int| dealt(missing_of(views(old(recvarray)@)), 0, remainder as nat, i),
            ),
        ),
        distributed == least(
            remainder as nat,
            count_above(missing_of(views(old(recvarray)@)), 0),
        ),
{
    let ghost olds = views(recvarray@);
    let ghost needs = missing_of(olds);
    let n = recvarray.len();
    let mut distributed: u64 = 0;
    let mut j: usize = 0;
    while j < n && distributed < remainder
        invariant
            j <= n,
            n == recvarray.len(),
            olds.len() == n,
            needs == missing_of(olds),
            all_wf(olds),
            distributed == count_above(needs.take(j as int), 0),
            distributed <= remainder,
            forall|i: int|
                0 <= i < j ==> recvarray@[i]@ == olds[i].credit(
                    #[trigger] dealt(needs, 0, remainder as nat, i),
                ),
            forall|i: int| j <= i < n ==> (#[trigger] recvarray@[i])@ == olds[i],
        decreases n - j,
    {
        proof {
            assert(needs.take(j + 1).drop_last() =~= needs.take(j as int));
            assert(olds[j as int].wf());
        }
        if recvarray[j].traded_quantity() != recvarray[j].required_quantity() {
            recvarray[j].credit(1);
            distributed = distributed + 1;
        }
        j = j + 1;
    }
    proof {
        let given = Seq::new(n as nat, |i: int| dealt(needs, 0, remainder as nat, i));
        assert forall|i: int| 0 <= i < n implies (#[trigger] recvarray@[i])@ == olds[i].credit(
            given[i],
        ) by {
            if i >= j {
                lemma_count_above_prefix(needs, 0, j as int, i);
            }
        }
        lemma_count_above_prefix(needs, 0, j as int, n as int);
        assert(needs.take(n as int) =~= needs);
        assert(views(recvarray@) =~= credited(olds, given));
    }
    distributed
}

/// Rations `total_to_dist` units over the orders of `recvarray` and returns
/// how many units were placed.
///
/// The orders are raised together, in rounds of equal chunks, as far as whole
/// units per unfilled order can be paid; what is left after that goes, one
/// unit each, to the first orders that are still unfilled. All of the pool is
/// placed unless the orders together are missing less than that.
pub fn distribute(total_to_dist: u64, recvarray: &mut Vec<OrderInfo>) -> (distributed: u64)
    requires
        all_wf(views(old(recvarray)@)),
    ensures
        views(final(recvarray)@) == rationed(views(old(recvarray)@), total_to_dist as nat),
        distributed == least(total_to_dist as nat, total_missing(views(old(recvarray)@))),
        all_wf(views(final(recvarray)@)),
{
    let ghost olds = views(recvarray@);
    let ghost needs = missing_of(olds);
    let ghost mut level: nat = 0;
    let mut dist_for_now: u64 = 0;
    proof {
        lemma_capped_sum_bound(needs, 0);
        assert(views(recvarray@) =~= credited(
            olds,
            Seq::new(olds.len(), |i: int| least(needs[i], 0)),
        ));
    }
    loop
        invariant
            olds.len() == recvarray.len(),
            needs == missing_of(olds),
            all_wf(olds),
            views(recvarray@) == credited(
                olds,
                Seq::new(olds.len(), |i: int| least(needs[i], level)),
            ),
            dist_for_now == capped_sum(needs, level),
            dist_for_now <= total_to_dist,
        ensures
            count_above(needs, level) == 0 || total_to_dist - dist_for_now < count_above(
                needs,
                level,
            ),
        decreases total_to_dist - dist_for_now,
    {
        proof {
            lemma_raised(olds, level);
            lemma_count_above_shift(needs, level, 0);
        }
        let not_fulled = count_unfilled(recvarray);
        if not_fulled == 0 {
            break ;
        }
        let eq_chunks = (total_to_dist - dist_for_now) / (not_fulled as u64);
        if eq_chunks == 0 {
            proof {
                assert(total_to_dist - dist_for_now < not_fulled) by (nonlinear_arith)
                    requires
                        (total_to_dist - dist_for_now) / (not_fulled as int) == 0,
                        not_fulled > 0,
                        total_to_dist - dist_for_now >= 0,
                ;
            }
            break ;
        }
        proof {
            let rest = needs_above(needs, level);
            lemma_capped_sum_raise(rest, 0, eq_chunks as nat);
            lemma_capped_sum_bound(rest, 0);
            lemma_capped_sum_shift(needs, level, eq_chunks as nat);
            assert(eq_chunks * not_fulled <= total_to_dist - dist_for_now) by (nonlinear_arith)
                requires
                    eq_chunks == (total_to_dist - dist_for_now) / (not_fulled as int),
                    not_fulled > 0,
                    total_to_dist - dist_for_now >= 0,
            ;
        }
        let ghost before = views(recvarray@);
        let distributed = give_each(recvarray, eq_chunks);
        proof {
            let raised = level + eq_chunks as nat;
            assert(views(recvarray@) =~= credited(
                olds,
                Seq::new(olds.len(), |i: int| least(needs[i], raised)),
            )) by {
                assert forall|i: int| 0 <= i < olds.len() implies views(recvarray@)[i]
                    == olds[i].credit(least(needs[i], raised)) by {
                    assert(olds[i].wf());
                    assert(before[i] == olds[i].credit(least(needs[i], level)));
                }
            }
            level = raised;
        }
        dist_for_now = dist_for_now + distributed;
        if distributed == 0 {
            break ;
        }
    }
    proof {
        lemma_raised(olds, level);
        lemma_count_above_shift(needs, level, 0);
    }
    let ghost before = views(recvarray@);
    let remainder = total_to_dist - dist_for_now;
    let given = give_units(recvarray, remainder);
    proof {
        lemma_capped_sum_bound(needs, level);
        lemma_capped_sum_bound(needs, level + 1);
        lemma_capped_sum_step(needs, level);
        if count_above(needs, level) != 0 {
            assert(is_fill_level(needs, total_to_dist as nat, level));
            lemma_fill_level_unique(needs, total_to_dist as nat, level);
        }
        assert forall|i: int| 0 <= i < olds.len() implies views(recvarray@)[i] == olds[i].credit(
            share(needs, total_to_dist as nat, i),
        ) by {
            assert(olds[i].wf());
            assert(before[i] == olds[i].credit(least(needs[i], level)));
            lemma_dealt_shift(needs, level, remainder as nat, i);
            if count_above(needs, level) == 0 {
                lemma_none_above(needs, level, i);
            }
        }
        assert(views(recvarray@) =~= rationed(olds, total_to_dist as nat));
    }
    dist_for_now + given
}

/// Orders that have each been raised to a level, or filled, are missing what
/// was needed above that level.
proof fn lemma_raised(orders: Seq<Order>, level: nat)
    requires
        all_wf(orders),
    ensures
        all_wf(
            credited(
                orders,
                Seq::new(orders.len(), |i: int| least(missing_of(orders)[i], level)),
            ),
        ),
        missing_of(
            credited(
                orders,
                Seq::new(orders.len(), |i: int| least(missing_of(orders)[i], level)),
            ),
        ) == needs_above(missing_of(orders), level),
{
    let raised = credited(
        orders,
        Seq::new(orders.len(), |i: int| least(missing_of(orders)[i], level)),
    );
    assert forall|i: int| 0 <= i < orders.len() implies (#[trigger] raised[i]).wf()
        && raised[i].missing() == needs_above(missing_of(orders), level)[i] by {
        assert(orders[i].wf());
    }
    assert(missing_of(raised) =~= needs_above(missing_of(orders), level));
}

/// What two runs of orders count for is what both count for together.
pub proof fn lemma_total_concat(front: Seq<Order>, back: Seq<Order>, measure: Measure)
    ensures
        total(front + back, measure) == total(front, measure) + total(back, measure),
{
    assert(measured(front + back, measure) =~= measured(front, measure) + measured(
        back,
        measure,
    ));
    lemma_sum_concat(measured(front, measure), measured(back, measure));
}

/// Crediting orders with no more than each is missing keeps them well formed,
/// moves what is credited from missing to filled, and leaves what they ask
/// for and who they are as it was.
pub proof fn lemma_credited(orders: Seq<Order>, given: Seq<nat>)
    requires
        all_wf(orders),
        given.len() == orders.len(),
        forall|i: int| 0 <= i < orders.len() ==> given[i] <= (#[trigger] orders[i]).missing(),
    ensures
        all_wf(credited(orders, given)),
        total(credited(orders, given), Measure::Missing) + sum(given) == total(
            orders,
            Measure::Missing,
        ),
        total(credited(orders, given), Measure::Filled) == total(orders, Measure::Filled) + sum(
            given,
        ),
        total(credited(orders, given), Measure::Requested) == total(orders, Measure::Requested),
        forall|id: OrderId|
            total(credited(orders, given), Measure::Carrying(id)) == total(
                orders,
                Measure::Carrying(id),
            ),
{
    let after = credited(orders, given);
    assert forall|i: int| 0 <= i < after.len() implies (#[trigger] after[i]).wf() by {
        assert(orders[i].wf());
    }
    lemma_sum_pointwise(
        measured(after, Measure::Missing),
        given,
        measured(orders, Measure::Missing),
    );
    lemma_sum_pointwise(
        measured(orders, Measure::Filled),
        given,
        measured(after, Measure::Filled),
    );
    assert(measured(after, Measure::Requested) =~= measured(orders, Measure::Requested));
    assert forall|id: OrderId|
        total(after, Measure::Carrying(id)) == total(orders, Measure::Carrying(id)) by {
        assert(measured(after, Measure::Carrying(id)) =~= measured(
            orders,
            Measure::Carrying(id),
        ));
    }
}

/// Rationing places the whole pool, or all that is missing if that is less;
/// it fills no order beyond what it asks for and changes nothing else.
pub proof fn lemma_rationed(orders: Seq<Order>, pool: nat)
    requires
        all_wf(orders),
    ensures
        all_wf(rationed(orders, pool)),
        rationed(orders, pool).len() == orders.len(),
        total_missing(rationed(orders, pool)) == total_missing(orders) - least(
            pool,
            total_missing(orders),
        ),
        total(rationed(orders, pool), Measure::Filled) == total(orders, Measure::Filled) + least(
            pool,
            total_missing(orders),
        ),
        total(rationed(orders, pool), Measure::Requested) == total(orders, Measure::Requested),
        forall|id: OrderId|
            total(rationed(orders, pool), Measure::Carrying(id)) == total(
                orders,
                Measure::Carrying(id),
            ),
{
    let needs = missing_of(orders);
    let given = shares(needs, pool);
    assert forall|i: int| 0 <= i < orders.len() implies given[i] <= (
    #[trigger] orders[i]).missing() by {
        lemma_share_bounded(needs, pool, i);
    }
    lemma_shares_sum(needs, pool);
    lemma_credited(orders, given);
}

/// Adds up what the orders are missing.
pub fn remaining(orders: &Vec<OrderInfo>) -> (missing: u128)
    requires
        all_wf(views(orders@)),
    ensures
        missing == total_missing(views(orders@)),
{
    let ghost needs = missing_of(views(orders@));
    let mut missing: u128 = 0;
    let mut j: usize = 0;
    while j < orders.len()
        invariant
            j <= orders.len(),
            needs == missing_of(views(orders@)),
            all_wf(views(orders@)),
            missing == sum(needs.take(j as int)),
            missing <= j * u64::MAX,
        decreases orders.len() - j,
    {
        proof {
            assert(needs.take(j + 1).drop_last() =~= needs.take(j as int));
            assert(views(orders@)[j as int].wf());
            assert(j * u64::MAX + u64::MAX == (j + 1) * u64::MAX) by (nonlinear_arith);
            assert((j + 1) * u64::MAX <= u64::MAX * u64::MAX) by (nonlinear_arith)
                requires
                    j + 1 <= u64::MAX,
            ;
        }
        missing = missing + orders[j].missing_quantity() as u128;
        j = j + 1;
    }
    proof {
        assert(needs.take(j as int) =~= needs);
    }
    missing
}

/// Fills every order with all that it is missing.
pub fn fill_all(orders: &mut Vec<OrderInfo>)
    requires
        all_wf(views(old(orders)@)),
    ensures
        views(final(orders)@) == rationed(
            views(old(orders)@),
            total_missing(views(old(orders)@)),
        ),
        all_wf(views(final(orders)@)),
{
    let ghost olds = views(orders@);
    let n = orders.len();
    let mut j: usize = 0;
    while j < n
        invariant
            j <= n,
            n == orders.len(),
            olds.len() == n,
            all_wf(olds),
            forall|i: int|
                0 <= i < j ==> (#[trigger] orders@[i])@ == olds[i].credit(olds[i].missing()),
            forall|i: int| j <= i < n ==> (#[trigger] orders@[i])@ == olds[i],
        decreases n - j,
    {
        proof {
            assert(olds[j as int].wf());
        }
        let missing = orders[j].missing_quantity();
        orders[j].credit(missing);
        j = j + 1;
    }
    proof {
        assert(views(orders@) =~= rationed(olds, total_missing(olds)));
        lemma_rationed(olds, total_missing(olds));
    }
}

/// Moves `total_to_dist` units between two tiers: rations them over the
/// receiving orders, then books what was placed on the distributing orders,
/// and returns it.
///
/// The distributing orders must be missing at least what the receiving
/// orders can take of the pool.
pub fn trade_loop(
    distrarray: &mut Vec<OrderInfo>,
    recvarray: &mut Vec<OrderInfo>,
    total_to_dist: u64,
) -> (distributed: u64)
    requires
        all_wf(views(old(distrarray)@)),
        all_wf(views(old(recvarray)@)),
        least(total_to_dist as nat, total_missing(views(old(recvarray)@))) <= total_missing(
            views(old(distrarray)@),
        ),
    ensures
        distributed == least(total_to_dist as nat, total_missing(views(old(recvarray)@))),
        views(final(recvarray)@) == rationed(views(old(recvarray)@), total_to_dist as nat),
        views(final(distrarray)@) == rationed(views(old(distrarray)@), distributed as nat),
        all_wf(views(final(distrarray)@)),
        all_wf(views(final(recvarray)@)),
{
    let distributed = distribute(total_to_dist, recvarray);
    let chk_dist = distribute(distributed, distrarray);
    assert(distributed == chk_dist);
    distributed
}

/// The two runs of orders agree, place by place, in all but the identifiers.
pub open spec fn alike(left: Seq<Order>, right: Seq<Order>) -> bool {
    &&& left.len() == right.len()
    &&& forall|k: int|
        #![trigger left[k]]
        #![trigger right[k]]
        0 <= k < left.len() ==> {
            &&& left[k].requested == right[k].requested
            &&& left[k].filled == right[k].filled
            &&& left[k].tier == right[k].tier
        }
}

/// Orders that are alike are rationed alike.
pub proof fn lemma_rationed_alike(left: Seq<Order>, right: Seq<Order>, pool: nat)
    requires
        alike(left, right),
    ensures
        total_missing(left) == total_missing(right),
        alike(rationed(left, pool), rationed(right, pool)),
{
    assert(missing_of(left) =~= missing_of(right)) by {
        assert forall|k: int| 0 <= k < left.len() implies missing_of(left)[k] == missing_of(
            right,
        )[k] by {
            assert(left[k].requested == right[k].requested);
        }
    }
    let after_left = rationed(left, pool);
    let after_right = rationed(right, pool);
    assert forall|k: int|
        #![trigger after_left[k]]
        #![trigger after_right[k]]
        0 <= k < after_left.len() implies {
        &&& after_left[k].requested == after_right[k].requested
        &&& after_left[k].filled == after_right[k].filled
        &&& after_left[k].tier == after_right[k].tier
    } by {
        assert(left[k].requested == right[k].requested);
    }
}

} // verus!
