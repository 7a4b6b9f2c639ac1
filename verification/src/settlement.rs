//! Matching the tiers of the two sides against each other.
//!
//! The tiers of each side stand in the order in which they are served. The
//! first tier of the buyers meets the first tier of the sellers; they trade
//! what the smaller of the two is missing, rationed over the orders of each;
//! the tier that is filled by this makes way for the next tier of its side.
//! Matching ends when one side has no tier left.

use crate::order::{Measure, Order, OrderId};
use crate::rationing::least;
use crate::partition::tiers_alike;
use crate::tier::{
    alike, all_wf, lemma_rationed, lemma_rationed_alike, lemma_total_concat, measured, rationed,
    total, total_missing,
};
use vstd::prelude::*;

verus! {

/// The outcome of matching: the tiers of both sides with what they were
/// given, and the quantity that changed hands.
pub struct Settlement {
    pub buys: Seq<Seq<Order>>,
    pub sells: Seq<Seq<Order>>,
    pub traded: nat,
}

/// Matches the buy tiers from `i` on against the sell tiers from `j` on.
pub open spec fn settle(buys: Seq<Seq<Order>>, sells: Seq<Seq<Order>>, i: int, j: int) -> Settlement
    decreases buys.len() - i + sells.len() - j,
{
    if 0 <= i < buys.len() && 0 <= j < sells.len() {
        let demand = total_missing(buys[i]);
        let supply = total_missing(sells[j]);
        let volume = least(demand, supply);
        let rest = settle(
            buys.update(i, rationed(buys[i], volume)),
            sells.update(j, rationed(sells[j], volume)),
            if demand <= supply {
                i + 1
            } else {
                i
            },
            if supply <= demand {
                j + 1
            } else {
                j
            },
        );
        Settlement { traded: rest.traded + volume, ..rest }
    } else {
        Settlement { buys, sells, traded: 0 }
    }
}

/// Every tier is well formed.
pub open spec fn tiers_wf(tiers: Seq<Seq<Order>>) -> bool {
    forall|t: int| 0 <= t < tiers.len() ==> all_wf(#[trigger] tiers[t])
}

/// The tiers before `upto` are missing nothing.
pub open spec fn spent(tiers: Seq<Seq<Order>>, upto: int) -> bool {
    forall|t: int| 0 <= t < upto && t < tiers.len() ==> total_missing(#[trigger] tiers[t]) == 0
}

/// What all tiers count for together under a measure.
pub open spec fn tiers_total(tiers: Seq<Seq<Order>>, measure: Measure) -> nat {
    total(tiers.flatten(), measure)
}

/// What tiers count for together is the sum of what each counts for.
pub proof fn lemma_tiers_total_push(tiers: Seq<Seq<Order>>, tier: Seq<Order>, measure: Measure)
    ensures
        tiers_total(tiers.push(tier), measure) == tiers_total(tiers, measure) + total(
            tier,
            measure,
        ),
{
    tiers.lemma_flatten_push(tier);
    lemma_total_concat(tiers.flatten(), tier, measure);
}

/// Replacing one tier changes the total by the difference between the two.
pub proof fn lemma_tiers_total_update(
    tiers: Seq<Seq<Order>>,
    t: int,
    tier: Seq<Order>,
    measure: Measure,
)
    requires
        0 <= t < tiers.len(),
    ensures
        tiers_total(tiers.update(t, tier), measure) + total(tiers[t], measure) == tiers_total(
            tiers,
            measure,
        ) + total(tier, measure),
    decreases tiers.len(),
{
    let front = tiers.drop_last();
    assert(tiers =~= front.push(tiers.last()));
    lemma_tiers_total_push(front, tiers.last(), measure);
    if t == tiers.len() - 1 {
        assert(tiers.update(t, tier) =~= front.push(tier));
        lemma_tiers_total_push(front, tier, measure);
    } else {
        assert(tiers.update(t, tier) =~= front.update(t, tier).push(tiers.last()));
        lemma_tiers_total_push(front.update(t, tier), tiers.last(), measure);
        lemma_tiers_total_update(front, t, tier, measure);
    }
}

/// Tiers that are all spent are missing nothing together.
pub proof fn lemma_spent_total(tiers: Seq<Seq<Order>>)
    requires
        spent(tiers, tiers.len() as int),
    ensures
        tiers_total(tiers, Measure::Missing) == 0,
    decreases tiers.len(),
{
    if tiers.len() > 0 {
        let front = tiers.drop_last();
        assert(tiers =~= front.push(tiers.last()));
        assert forall|t: int| 0 <= t < front.len() implies total_missing(#[trigger] front[t])
            == 0 by {
            assert(total_missing(tiers[t]) == 0);
        }
        lemma_spent_total(front);
        lemma_tiers_total_push(front, tiers.last(), Measure::Missing);
        assert(total_missing(tiers[tiers.len() - 1]) == 0);
    } else {
        assert(tiers.flatten() =~= Seq::<Order>::empty());
        assert(measured(tiers.flatten(), Measure::Missing) =~= Seq::<nat>::empty());
    }
}

/// What matching does to the books of both sides.
///
/// The tiers keep their shape and stay well formed. What changes hands is
/// booked in full on both sides: it leaves what each side is missing and
/// joins what each side holds. Nothing else about the orders changes. And if
/// the tiers that matching has left behind are spent, it goes on until one
/// side is missing nothing: the quantity traded is the smaller of what the
/// two sides were missing.
pub proof fn lemma_settle(buys: Seq<Seq<Order>>, sells: Seq<Seq<Order>>, i: int, j: int)
    requires
        tiers_wf(buys),
        tiers_wf(sells),
        0 <= i <= buys.len(),
        0 <= j <= sells.len(),
    ensures
        settle(buys, sells, i, j).buys.len() == buys.len(),
        settle(buys, sells, i, j).sells.len() == sells.len(),
        tiers_wf(settle(buys, sells, i, j).buys),
        tiers_wf(settle(buys, sells, i, j).sells),
        tiers_total(settle(buys, sells, i, j).buys, Measure::Missing) + settle(
            buys,
            sells,
            i,
            j,
        ).traded == tiers_total(buys, Measure::Missing),
        tiers_total(settle(buys, sells, i, j).sells, Measure::Missing) + settle(
            buys,
            sells,
            i,
            j,
        ).traded == tiers_total(sells, Measure::Missing),
        tiers_total(settle(buys, sells, i, j).buys, Measure::Filled) == tiers_total(
            buys,
            Measure::Filled,
        ) + settle(buys, sells, i, j).traded,
        tiers_total(settle(buys, sells, i, j).sells, Measure::Filled) == tiers_total(
            sells,
            Measure::Filled,
        ) + settle(buys, sells, i, j).traded,
        tiers_total(settle(buys, sells, i, j).buys, Measure::Requested) == tiers_total(
            buys,
            Measure::Requested,
        ),
        tiers_total(settle(buys, sells, i, j).sells, Measure::Requested) == tiers_total(
            sells,
            Measure::Requested,
        ),
        forall|id: OrderId|
            tiers_total(settle(buys, sells, i, j).buys, Measure::Carrying(id)) == tiers_total(
                buys,
                Measure::Carrying(id),
            ),
        forall|id: OrderId|
            tiers_total(settle(buys, sells, i, j).sells, Measure::Carrying(id)) == tiers_total(
                sells,
                Measure::Carrying(id),
            ),
        spent(buys, i) && spent(sells, j) ==> settle(buys, sells, i, j).traded == least(
            tiers_total(buys, Measure::Missing),
            tiers_total(sells, Measure::Missing),
        ),
    decreases buys.len() - i + sells.len() - j,
{
    if i < buys.len() && j < sells.len() {
        let demand = total_missing(buys[i]);
        let supply = total_missing(sells[j]);
        let volume = least(demand, supply);
        let bought = rationed(buys[i], volume);
        let sold = rationed(sells[j], volume);
        let next_buys = buys.update(i, bought);
        let next_sells = sells.update(j, sold);
        let next_i = if demand <= supply {
            i + 1
        } else {
            i
        };
        let next_j = if supply <= demand {
            j + 1
        } else {
            j
        };
        lemma_rationed(buys[i], volume);
        lemma_rationed(sells[j], volume);
        assert(tiers_wf(next_buys)) by {
            assert forall|t: int| 0 <= t < next_buys.len() implies all_wf(
                #[trigger] next_buys[t],
            ) by {
                if t != i {
                    assert(all_wf(buys[t]));
                }
            }
        }
        assert(tiers_wf(next_sells)) by {
            assert forall|t: int| 0 <= t < next_sells.len() implies all_wf(
                #[trigger] next_sells[t],
            ) by {
                if t != j {
                    assert(all_wf(sells[t]));
                }
            }
        }
        lemma_settle(next_buys, next_sells, next_i, next_j);
        lemma_tiers_total_update(buys, i, bought, Measure::Missing);
        lemma_tiers_total_update(sells, j, sold, Measure::Missing);
        lemma_tiers_total_update(buys, i, bought, Measure::Filled);
        lemma_tiers_total_update(sells, j, sold, Measure::Filled);
        lemma_tiers_total_update(buys, i, bought, Measure::Requested);
        lemma_tiers_total_update(sells, j, sold, Measure::Requested);
        assert forall|id: OrderId|
            tiers_total(settle(buys, sells, i, j).buys, Measure::Carrying(id)) == tiers_total(
                buys,
                Measure::Carrying(id),
            ) by {
            lemma_tiers_total_update(buys, i, bought, Measure::Carrying(id));
        }
        assert forall|id: OrderId|
            tiers_total(settle(buys, sells, i, j).sells, Measure::Carrying(id)) == tiers_total(
                sells,
                Measure::Carrying(id),
            ) by {
            lemma_tiers_total_update(sells, j, sold, Measure::Carrying(id));
        }
        if spent(buys, i) && spent(sells, j) {
            assert(spent(next_buys, next_i)) by {
                assert forall|t: int| 0 <= t < next_i && t < next_buys.len() implies total_missing(
                    #[trigger] next_buys[t],
                ) == 0 by {
                    if t != i {
                        assert(total_missing(buys[t]) == 0);
                    }
                }
            }
            assert(spent(next_sells, next_j)) by {
                assert forall|t: int|
                    0 <= t < next_j && t < next_sells.len() implies total_missing(
                    #[trigger] next_sells[t],
                ) == 0 by {
                    if t != j {
                        assert(total_missing(sells[t]) == 0);
                    }
                }
            }
        }
    } else if spent(buys, i) && spent(sells, j) {
        if i == buys.len() {
            lemma_spent_total(buys);
        } else {
            lemma_spent_total(sells);
        }
    }
}

/// `after` holds the orders of `before`, place by place, none of them with
/// less than it had and none changed otherwise.
pub open spec fn grown(before: Seq<Order>, after: Seq<Order>) -> bool {
    &&& after.len() == before.len()
    &&& forall|k: int|
        #![trigger after[k]]
        0 <= k < before.len() ==> {
            &&& after[k].id == before[k].id
            &&& after[k].requested == before[k].requested
            &&& after[k].tier == before[k].tier
            &&& after[k].filled >= before[k].filled
        }
}

/// `after` holds the tiers of `before`, each of them grown.
pub open spec fn tiers_grown(before: Seq<Seq<Order>>, after: Seq<Seq<Order>>) -> bool {
    &&& after.len() == before.len()
    &&& forall|t: int| 0 <= t < before.len() ==> grown(before[t], #[trigger] after[t])
}

/// Tiers that have grown have grown as one sequence too.
pub proof fn lemma_flatten_grown(before: Seq<Seq<Order>>, after: Seq<Seq<Order>>)
    requires
        tiers_grown(before, after),
    ensures
        grown(before.flatten(), after.flatten()),
    decreases before.len(),
{
    if before.len() > 0 {
        let before_front = before.drop_last();
        let after_front = after.drop_last();
        assert(before =~= before_front.push(before.last()));
        assert(after =~= after_front.push(after.last()));
        before_front.lemma_flatten_push(before.last());
        after_front.lemma_flatten_push(after.last());
        assert(tiers_grown(before_front, after_front)) by {
            assert forall|t: int| 0 <= t < before_front.len() implies grown(
                before_front[t],
                #[trigger] after_front[t],
            ) by {
                assert(grown(before[t], after[t]));
            }
        }
        lemma_flatten_grown(before_front, after_front);
        assert(grown(before[before.len() - 1], after[after.len() - 1]));
        let old_flat = before.flatten();
        let new_flat = after.flatten();
        let cut = before_front.flatten().len() as int;
        assert forall|k: int| #![trigger new_flat[k]] 0 <= k < old_flat.len() implies {
            &&& new_flat[k].id == old_flat[k].id
            &&& new_flat[k].requested == old_flat[k].requested
            &&& new_flat[k].tier == old_flat[k].tier
            &&& new_flat[k].filled >= old_flat[k].filled
        } by {
            if k < cut {
                assert(after_front.flatten()[k].id == before_front.flatten()[k].id);
            } else {
                assert(after.last()[k - cut].id == before.last()[k - cut].id);
            }
        }
    } else {
        assert(before.flatten() =~= Seq::<Order>::empty());
        assert(after.flatten() =~= Seq::<Order>::empty());
    }
}

/// Matching lets every tier grow: it takes nothing back, and changes nothing
/// about an order but what it holds.
pub proof fn lemma_settle_grown(buys: Seq<Seq<Order>>, sells: Seq<Seq<Order>>, i: int, j: int)
    ensures
        tiers_grown(buys, settle(buys, sells, i, j).buys),
        tiers_grown(sells, settle(buys, sells, i, j).sells),
    decreases buys.len() - i + sells.len() - j,
{
    if 0 <= i < buys.len() && 0 <= j < sells.len() {
        let demand = total_missing(buys[i]);
        let supply = total_missing(sells[j]);
        let volume = least(demand, supply);
        let next_buys = buys.update(i, rationed(buys[i], volume));
        let next_sells = sells.update(j, rationed(sells[j], volume));
        let next_i = if demand <= supply {
            i + 1
        } else {
            i
        };
        let next_j = if supply <= demand {
            j + 1
        } else {
            j
        };
        lemma_settle_grown(next_buys, next_sells, next_i, next_j);
        let outcome = settle(buys, sells, i, j);
        assert forall|t: int| 0 <= t < buys.len() implies grown(
            buys[t],
            #[trigger] outcome.buys[t],
        ) by {
            assert(grown(next_buys[t], outcome.buys[t]));
            assert(grown(buys[i], rationed(buys[i], volume)));
        }
        assert forall|t: int| 0 <= t < sells.len() implies grown(
            sells[t],
            #[trigger] outcome.sells[t],
        ) by {
            assert(grown(next_sells[t], outcome.sells[t]));
            assert(grown(sells[j], rationed(sells[j], volume)));
        }
    } else {
        assert forall|t: int| 0 <= t < buys.len() implies grown(buys[t], #[trigger] buys[t]) by {}
        assert forall|t: int| 0 <= t < sells.len() implies grown(
            sells[t],
            #[trigger] sells[t],
        ) by {}
    }
}

/// Tiers that are alike are alike as one sequence too.
pub proof fn lemma_flatten_alike(left: Seq<Seq<Order>>, right: Seq<Seq<Order>>)
    requires
        tiers_alike(left, right),
    ensures
        alike(left.flatten(), right.flatten()),
    decreases left.len(),
{
    if left.len() > 0 {
        let left_front = left.drop_last();
        let right_front = right.drop_last();
        assert(left =~= left_front.push(left.last()));
        assert(right =~= right_front.push(right.last()));
        left_front.lemma_flatten_push(left.last());
        right_front.lemma_flatten_push(right.last());
        assert(tiers_alike(left_front, right_front)) by {
            assert forall|t: int|
                #![trigger left_front[t]]
                #![trigger right_front[t]]
                0 <= t < left_front.len() implies alike(left_front[t], right_front[t]) by {
                assert(alike(left[t], right[t]));
            }
        }
        lemma_flatten_alike(left_front, right_front);
        assert(alike(left[left.len() - 1], right[right.len() - 1]));
        let left_flat = left.flatten();
        let right_flat = right.flatten();
        let cut = left_front.flatten().len() as int;
        assert forall|k: int|
            #![trigger left_flat[k]]
            #![trigger right_flat[k]]
            0 <= k < left_flat.len() implies {
            &&& left_flat[k].requested == right_flat[k].requested
            &&& left_flat[k].filled == right_flat[k].filled
            &&& left_flat[k].tier == right_flat[k].tier
        } by {
            if k < cut {
                assert(left_front.flatten()[k].tier == right_front.flatten()[k].tier);
            } else {
                assert(left.last()[k - cut].tier == right.last()[k - cut].tier);
            }
        }
    } else {
        assert(left.flatten() =~= Seq::<Order>::empty());
        assert(right.flatten() =~= Seq::<Order>::empty());
    }
}

/// Tiers that are alike are matched alike: the same quantity changes hands
/// and the tiers are alike afterwards.
pub proof fn lemma_settle_alike(
    buys: Seq<Seq<Order>>,
    sells: Seq<Seq<Order>>,
    other_buys: Seq<Seq<Order>>,
    other_sells: Seq<Seq<Order>>,
    i: int,
    j: int,
)
    requires
        tiers_alike(buys, other_buys),
        tiers_alike(sells, other_sells),
    ensures
        tiers_alike(settle(buys, sells, i, j).buys, settle(other_buys, other_sells, i, j).buys),
        tiers_alike(settle(buys, sells, i, j).sells, settle(other_buys, other_sells, i, j).sells),
        settle(buys, sells, i, j).traded == settle(other_buys, other_sells, i, j).traded,
    decreases buys.len() - i + sells.len() - j,
{
    if 0 <= i < buys.len() && 0 <= j < sells.len() {
        let demand = total_missing(buys[i]);
        let supply = total_missing(sells[j]);
        let volume = least(demand, supply);
        assert(alike(buys[i], other_buys[i]));
        assert(alike(sells[j], other_sells[j]));
        lemma_rationed_alike(buys[i], other_buys[i], volume);
        lemma_rationed_alike(sells[j], other_sells[j], volume);
        let next_buys = buys.update(i, rationed(buys[i], volume));
        let next_sells = sells.update(j, rationed(sells[j], volume));
        let next_other_buys = other_buys.update(i, rationed(other_buys[i], volume));
        let next_other_sells = other_sells.update(j, rationed(other_sells[j], volume));
        assert(tiers_alike(next_buys, next_other_buys)) by {
            assert forall|t: int|
                #![trigger next_buys[t]]
                #![trigger next_other_buys[t]]
                0 <= t < next_buys.len() implies alike(next_buys[t], next_other_buys[t]) by {
                if t != i {
                    assert(alike(buys[t], other_buys[t]));
                }
            }
        }
        assert(tiers_alike(next_sells, next_other_sells)) by {
            assert forall|t: int|
                #![trigger next_sells[t]]
                #![trigger next_other_sells[t]]
                0 <= t < next_sells.len() implies alike(next_sells[t], next_other_sells[t]) by {
                if t != j {
                    assert(alike(sells[t], other_sells[t]));
                }
            }
        }
        lemma_settle_alike(
            next_buys,
            next_sells,
            next_other_buys,
            next_other_sells,
            if demand <= supply {
                i + 1
            } else {
                i
            },
            if supply <= demand {
                j + 1
            } else {
                j
            },
        );
    }
}

/// Matching serves the tiers of each side in their order: the tiers before
/// the place where it starts are left as they are, and a tier is given
/// something only when all tiers before it, from that place on, are missing
/// nothing any more.
pub proof fn lemma_settle_in_order(buys: Seq<Seq<Order>>, sells: Seq<Seq<Order>>, i: int, j: int)
    requires
        tiers_wf(buys),
        tiers_wf(sells),
        0 <= i <= buys.len(),
        0 <= j <= sells.len(),
    ensures
        forall|t: int| 0 <= t < i ==> #[trigger] settle(buys, sells, i, j).buys[t] == buys[t],
        forall|t: int| 0 <= t < j ==> #[trigger] settle(buys, sells, i, j).sells[t] == sells[t],
        forall|t: int, u: int|
            #![trigger settle(buys, sells, i, j).buys[t], buys[u]]
            i <= t < u < buys.len() && settle(buys, sells, i, j).buys[u] != buys[u]
                ==> total_missing(settle(buys, sells, i, j).buys[t]) == 0,
        forall|t: int, u: int|
            #![trigger settle(buys, sells, i, j).sells[t], sells[u]]
            j <= t < u < sells.len() && settle(buys, sells, i, j).sells[u] != sells[u]
                ==> total_missing(settle(buys, sells, i, j).sells[t]) == 0,
    decreases buys.len() - i + sells.len() - j,
{
    if i < buys.len() && j < sells.len() {
        let demand = total_missing(buys[i]);
        let supply = total_missing(sells[j]);
        let volume = least(demand, supply);
        let next_buys = buys.update(i, rationed(buys[i], volume));
        let next_sells = sells.update(j, rationed(sells[j], volume));
        let next_i = if demand <= supply {
            i + 1
        } else {
            i
        };
        let next_j = if supply <= demand {
            j + 1
        } else {
            j
        };
        lemma_rationed(buys[i], volume);
        lemma_rationed(sells[j], volume);
        lemma_settle(buys, sells, i, j);
        assert(tiers_wf(next_buys)) by {
            assert forall|t: int| 0 <= t < next_buys.len() implies all_wf(
                #[trigger] next_buys[t],
            ) by {
                if t != i {
                    assert(all_wf(buys[t]));
                }
            }
        }
        assert(tiers_wf(next_sells)) by {
            assert forall|t: int| 0 <= t < next_sells.len() implies all_wf(
                #[trigger] next_sells[t],
            ) by {
                if t != j {
                    assert(all_wf(sells[t]));
                }
            }
        }
        lemma_settle_in_order(next_buys, next_sells, next_i, next_j);
        let outcome = settle(buys, sells, i, j);
        let rest = settle(next_buys, next_sells, next_i, next_j);
        assert(outcome.buys == rest.buys);
        assert(outcome.sells == rest.sells);
        assert forall|t: int| 0 <= t < i implies #[trigger] outcome.buys[t] == buys[t] by {
            assert(rest.buys[t] == next_buys[t]);
        }
        assert forall|t: int| 0 <= t < j implies #[trigger] outcome.sells[t] == sells[t] by {
            assert(rest.sells[t] == next_sells[t]);
        }
        assert forall|t: int, u: int|
            #![trigger outcome.buys[t], buys[u]]
            i <= t < u < buys.len() && outcome.buys[u] != buys[u] implies total_missing(
            outcome.buys[t],
        ) == 0 by {
            assert(next_buys[u] == buys[u]);
            if t == i && next_i == i + 1 {
                assert(rest.buys[i] == next_buys[i]);
            } else {
                assert(rest.buys[u] != next_buys[u]);
                assert(total_missing(rest.buys[t]) == 0);
            }
        }
        assert forall|t: int, u: int|
            #![trigger outcome.sells[t], sells[u]]
            j <= t < u < sells.len() && outcome.sells[u] != sells[u] implies total_missing(
            outcome.sells[t],
        ) == 0 by {
            assert(next_sells[u] == sells[u]);
            if t == j && next_j == j + 1 {
                assert(rest.sells[j] == next_sells[j]);
            } else {
                assert(rest.sells[u] != next_sells[u]);
                assert(total_missing(rest.sells[t]) == 0);
            }
        }
    }
}

} // verus!
