//! Even-handed rationing of a pool of units over recipients with bounded
//! needs, as pure arithmetic on sequences of natural numbers.
//!
//! Every recipient is raised to a common level (or to its need, where that is
//! lower); the units that do not suffice to raise the level once more go, one
//! each, to the earliest recipients that are still short.

use vstd::prelude::*;

verus! {

/// The sum of all needs.
pub open spec fn sum(needs: Seq<nat>) -> nat
    decreases needs.len(),
{
    if needs.len() == 0 {
        0
    } else {
        sum(needs.drop_last()) + needs.last()
    }
}

/// The smaller of two natural numbers.
pub open spec fn least(a: nat, b: nat) -> nat {
    if a <= b {
        a
    } else {
        b
    }
}

/// What the recipients hold together when each is given `level` units, but
/// none more than it needs.
pub open spec fn capped_sum(needs: Seq<nat>, level: nat) -> nat
    decreases needs.len(),
{
    if needs.len() == 0 {
        0
    } else {
        capped_sum(needs.drop_last(), level) + least(needs.last(), level)
    }
}

/// How many recipients need more than `level` units.
pub open spec fn count_above(needs: Seq<nat>, level: nat) -> nat
    decreases needs.len(),
{
    if needs.len() == 0 {
        0
    } else {
        count_above(needs.drop_last(), level) + if needs.last() > level {
            1nat
        } else {
            0nat
        }
    }
}

/// `level` is the highest common level that `pool` can pay for.
pub open spec fn is_fill_level(needs: Seq<nat>, pool: nat, level: nat) -> bool {
    capped_sum(needs, level) <= pool < capped_sum(needs, level + 1)
}

/// The highest common level that `pool` can pay for, where the pool does not
/// cover all needs.
pub open spec fn fill_level(needs: Seq<nat>, pool: nat) -> nat {
    choose|level: nat| is_fill_level(needs, pool, level)
}

/// What recipient `i` is given when all are raised to `level` and the first
/// `spare` recipients that are still short receive one unit more.
pub open spec fn dealt(needs: Seq<nat>, level: nat, spare: nat, i: int) -> nat {
    if needs[i] <= level {
        needs[i]
    } else if count_above(needs.take(i), level) < spare {
        level + 1
    } else {
        level
    }
}

/// The share of recipient `i` when `pool` units are rationed over `needs`.
pub open spec fn share(needs: Seq<nat>, pool: nat, i: int) -> nat {
    if pool >= sum(needs) {
        needs[i]
    } else {
        let level = fill_level(needs, pool);
        dealt(needs, level, (pool - capped_sum(needs, level)) as nat, i)
    }
}

/// The shares of all recipients when `pool` units are rationed over `needs`.
pub open spec fn shares(needs: Seq<nat>, pool: nat) -> Seq<nat> {
    Seq::new(needs.len(), |i: int| share(needs, pool, i))
}

/// What is still needed once every recipient has been given up to `level`.
pub open spec fn needs_above(needs: Seq<nat>, level: nat) -> Seq<nat> {
    Seq::new(needs.len(), |i: int| (needs[i] - least(needs[i], level)) as nat)
}

/// One more need adds to the sum.
pub proof fn lemma_sum_push(needs: Seq<nat>, need: nat)
    ensures
        sum(needs.push(need)) == sum(needs) + need,
{
    assert(needs.push(need).drop_last() =~= needs);
}

/// Raising the level by one gives one unit to each recipient above it.
pub proof fn lemma_capped_sum_step(needs: Seq<nat>, level: nat)
    ensures
        capped_sum(needs, level + 1) == capped_sum(needs, level) + count_above(needs, level),
    decreases needs.len(),
{
    if needs.len() > 0 {
        lemma_capped_sum_step(needs.drop_last(), level);
    }
}

/// A higher level never pays out less.
pub proof fn lemma_capped_sum_monotone(needs: Seq<nat>, low: nat, high: nat)
    requires
        low <= high,
    ensures
        capped_sum(needs, low) <= capped_sum(needs, high),
    decreases needs.len(),
{
    if needs.len() > 0 {
        lemma_capped_sum_monotone(needs.drop_last(), low, high);
    }
}

/// No level pays out more than is needed, and a level that leaves nobody
/// short pays out all of it.
pub proof fn lemma_capped_sum_bound(needs: Seq<nat>, level: nat)
    ensures
        capped_sum(needs, level) <= sum(needs),
        count_above(needs, level) == 0 <==> capped_sum(needs, level) == sum(needs),
        capped_sum(needs, 0) == 0,
    decreases needs.len(),
{
    if needs.len() > 0 {
        lemma_capped_sum_bound(needs.drop_last(), level);
    }
}

/// Raising the level by `chunk` pays at most `chunk` to each recipient above
/// the old level, and at least one unit to each if `chunk` is positive.
pub proof fn lemma_capped_sum_raise(needs: Seq<nat>, level: nat, chunk: nat)
    ensures
        capped_sum(needs, level + chunk) <= capped_sum(needs, level) + chunk * count_above(
            needs,
            level,
        ),
        chunk >= 1 ==> capped_sum(needs, level + chunk) >= capped_sum(needs, level) + count_above(
            needs,
            level,
        ),
    decreases needs.len(),
{
    if needs.len() > 0 {
        let rest = needs.drop_last();
        lemma_capped_sum_raise(rest, level, chunk);
        assert(chunk * (count_above(rest, level) + 1) == chunk * count_above(rest, level) + chunk)
            by (nonlinear_arith);
    } else {
        assert(chunk * 0 == 0) by (nonlinear_arith);
    }
}

/// At most one level is the fill level.
pub proof fn lemma_fill_level_unique(needs: Seq<nat>, pool: nat, level: nat)
    requires
        is_fill_level(needs, pool, level),
    ensures
        fill_level(needs, pool) == level,
{
    let other = fill_level(needs, pool);
    assert(is_fill_level(needs, pool, other));
    if other < level {
        lemma_capped_sum_monotone(needs, other + 1, level);
    } else if level < other {
        lemma_capped_sum_monotone(needs, level + 1, other);
    }
}

/// A pool that does not cover all needs has a fill level at or above any
/// level that it can pay for.
pub proof fn lemma_fill_level_exists(needs: Seq<nat>, pool: nat, from: nat) -> (level: nat)
    requires
        capped_sum(needs, from) <= pool < sum(needs),
    ensures
        is_fill_level(needs, pool, level),
        fill_level(needs, pool) == level,
        from <= level,
    decreases sum(needs) - capped_sum(needs, from),
{
    lemma_capped_sum_step(needs, from);
    lemma_capped_sum_bound(needs, from);
    lemma_capped_sum_bound(needs, from + 1);
    if pool < capped_sum(needs, from + 1) {
        lemma_fill_level_unique(needs, pool, from);
        from
    } else {
        lemma_fill_level_exists(needs, pool, from + 1)
    }
}

/// The sum of what is dealt to the first `upto` recipients.
pub open spec fn dealt_sum(needs: Seq<nat>, level: nat, spare: nat, upto: int) -> nat
    decreases upto,
{
    if upto <= 0 {
        0
    } else {
        dealt_sum(needs, level, spare, upto - 1) + dealt(needs, level, spare, upto - 1)
    }
}

/// Dealing pays out the level to everybody and the spare units as far as
/// there are recipients for them.
pub proof fn lemma_dealt_sum(needs: Seq<nat>, level: nat, spare: nat, upto: int)
    requires
        0 <= upto <= needs.len(),
    ensures
        dealt_sum(needs, level, spare, upto) == capped_sum(needs.take(upto), level) + least(
            spare,
            count_above(needs.take(upto), level),
        ),
    decreases upto,
{
    if upto > 0 {
        lemma_dealt_sum(needs, level, spare, upto - 1);
        assert(needs.take(upto).drop_last() =~= needs.take(upto - 1));
    }
}

/// The sum of a sequence whose entries are what is dealt.
pub proof fn lemma_sum_of_dealt(needs: Seq<nat>, level: nat, spare: nat, given: Seq<nat>, upto: int)
    requires
        0 <= upto <= needs.len(),
        given.len() == needs.len(),
        forall|i: int| 0 <= i < upto ==> given[i] == dealt(needs, level, spare, i),
    ensures
        sum(given.take(upto)) == dealt_sum(needs, level, spare, upto),
    decreases upto,
{
    if upto > 0 {
        lemma_sum_of_dealt(needs, level, spare, given, upto - 1);
        assert(given.take(upto).drop_last() =~= given.take(upto - 1));
    }
}

/// No recipient is given more than it needs.
pub proof fn lemma_share_bounded(needs: Seq<nat>, pool: nat, i: int)
    requires
        0 <= i < needs.len(),
    ensures
        share(needs, pool, i) <= needs[i],
{
}

/// Rationing hands out the whole pool, or all that is needed if that is less.
pub proof fn lemma_shares_sum(needs: Seq<nat>, pool: nat)
    ensures
        sum(shares(needs, pool)) == least(pool, sum(needs)),
{
    let given = shares(needs, pool);
    if pool >= sum(needs) {
        assert(given =~= needs);
    } else {
        lemma_capped_sum_bound(needs, 0);
        let level = lemma_fill_level_exists(needs, pool, 0);
        let spare = (pool - capped_sum(needs, level)) as nat;
        lemma_capped_sum_step(needs, level);
        lemma_sum_of_dealt(needs, level, spare, given, needs.len() as int);
        lemma_dealt_sum(needs, level, spare, needs.len() as int);
        assert(given.take(needs.len() as int) =~= given);
        assert(needs.take(needs.len() as int) =~= needs);
    }
}

/// Once everybody has been raised to `level`, those still short of `more`
/// further units are those that were short of `level + more`.
pub proof fn lemma_count_above_shift(needs: Seq<nat>, level: nat, more: nat)
    ensures
        count_above(needs_above(needs, level), more) == count_above(needs, level + more),
    decreases needs.len(),
{
    if needs.len() > 0 {
        lemma_count_above_shift(needs.drop_last(), level, more);
        assert(needs_above(needs, level).drop_last() =~= needs_above(needs.drop_last(), level));
    }
}

/// Raising from `level` by `more` pays the difference of what the two levels
/// pay.
pub proof fn lemma_capped_sum_shift(needs: Seq<nat>, level: nat, more: nat)
    ensures
        capped_sum(needs_above(needs, level), more) + capped_sum(needs, level) == capped_sum(
            needs,
            level + more,
        ),
    decreases needs.len(),
{
    if needs.len() > 0 {
        lemma_capped_sum_shift(needs.drop_last(), level, more);
        assert(needs_above(needs, level).drop_last() =~= needs_above(needs.drop_last(), level));
    }
}

/// Dealing on top of a level is dealing at that level.
pub proof fn lemma_dealt_shift(needs: Seq<nat>, level: nat, spare: nat, i: int)
    requires
        0 <= i < needs.len(),
    ensures
        least(needs[i], level) + dealt(needs_above(needs, level), 0, spare, i) == dealt(
            needs,
            level,
            spare,
            i,
        ),
{
    assert(needs_above(needs, level).take(i) =~= needs_above(needs.take(i), level));
    lemma_count_above_shift(needs.take(i), level, 0);
}

/// Where nobody is short of `level`, no need exceeds it.
pub proof fn lemma_none_above(needs: Seq<nat>, level: nat, i: int)
    requires
        count_above(needs, level) == 0,
        0 <= i < needs.len(),
    ensures
        needs[i] <= level,
    decreases needs.len(),
{
    if i < needs.len() - 1 {
        lemma_none_above(needs.drop_last(), level, i);
    }
}

/// What a level pays to two groups is what it pays to both together.
pub proof fn lemma_capped_sum_concat(front: Seq<nat>, back: Seq<nat>, level: nat)
    ensures
        capped_sum(front + back, level) == capped_sum(front, level) + capped_sum(back, level),
    decreases back.len(),
{
    if back.len() == 0 {
        assert(front + back =~= front);
    } else {
        lemma_capped_sum_concat(front, back.drop_last(), level);
        assert((front + back).drop_last() =~= front + back.drop_last());
    }
}

/// A longer prefix has no fewer recipients short of a level.
pub proof fn lemma_count_above_prefix(needs: Seq<nat>, level: nat, short: int, long: int)
    requires
        0 <= short <= long <= needs.len(),
    ensures
        count_above(needs.take(short), level) <= count_above(needs.take(long), level),
    decreases long - short,
{
    if short < long {
        lemma_count_above_prefix(needs, level, short, long - 1);
        assert(needs.take(long).drop_last() =~= needs.take(long - 1));
    }
}

/// The sum of two groups is the sum of both together.
pub proof fn lemma_sum_concat(front: Seq<nat>, back: Seq<nat>)
    ensures
        sum(front + back) == sum(front) + sum(back),
    decreases back.len(),
{
    if back.len() == 0 {
        assert(front + back =~= front);
    } else {
        lemma_sum_concat(front, back.drop_last());
        assert((front + back).drop_last() =~= front + back.drop_last());
    }
}

/// Sums add up entry by entry.
pub proof fn lemma_sum_pointwise(left: Seq<nat>, right: Seq<nat>, both: Seq<nat>)
    requires
        left.len() == both.len(),
        right.len() == both.len(),
        forall|i: int| 0 <= i < both.len() ==> both[i] == left[i] + right[i],
    ensures
        sum(both) == sum(left) + sum(right),
    decreases both.len(),
{
    if both.len() > 0 {
        lemma_sum_pointwise(left.drop_last(), right.drop_last(), both.drop_last());
    }
}

/// A sum of natural numbers is zero only if each of them is.
pub proof fn lemma_sum_zero(needs: Seq<nat>, i: int)
    requires
        sum(needs) == 0,
        0 <= i < needs.len(),
    ensures
        needs[i] == 0,
    decreases needs.len(),
{
    if i < needs.len() - 1 {
        lemma_sum_zero(needs.drop_last(), i);
    }
}

/// Rationing is even-handed: nobody is given more than one unit above what
/// a recipient that is left short is given, and nobody is given more than
/// an earlier recipient that is left short.
pub proof fn lemma_shares_even(needs: Seq<nat>, pool: nat, short: int, other: int)
    requires
        0 <= short < needs.len(),
        0 <= other < needs.len(),
        share(needs, pool, short) < needs[short],
    ensures
        share(needs, pool, other) <= share(needs, pool, short) + 1,
        short < other ==> share(needs, pool, other) <= share(needs, pool, short),
{
    if short < other {
        lemma_count_above_prefix(needs, fill_level(needs, pool), short, other);
    }
}

} // verus!
