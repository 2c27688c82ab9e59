//! The greedy activation rule, written as functions of the band: how much a
//! dark satellite would help, which one greedy lights next, the plan the
//! lighting converges to, and what the pruning pass then switches back off.

use vstd::prelude::*;
use vstd::relations::total_ordering;
use crate::tally::{
    all_below, count_lit, count_of, count_true, lemma_count_of_push, lemma_count_true_le_len,
    lemma_count_true_switch,
};
use crate::activation::{required, shortfall, was_lit};

verus! {

/// Listings of satellite `s` among points `0..upto` still short of their
/// requirement under `active`.
pub open spec fn gain_upto(covering: Seq<Vec<usize>>, active: Seq<bool>, redundancy: nat, s: usize, upto: int) -> nat
    decreases upto,
{
    if upto <= 0 {
        0
    } else {
        gain_upto(covering, active, redundancy, s, upto - 1) + if shortfall(covering[upto - 1]@, active, redundancy)
            > 0 {
            count_of(covering[upto - 1]@, s)
        } else {
            0
        }
    }
}

/// What lighting `s` would do for the band: the still-short points it
/// serves, counted once per listing.
pub open spec fn gain_of(covering: Seq<Vec<usize>>, active: Seq<bool>, redundancy: nat, s: usize) -> nat {
    gain_upto(covering, active, redundancy, s, covering.len() as int)
}

/// `s` is a dark satellite of the fleet that would help some short point.
pub open spec fn candidate(covering: Seq<Vec<usize>>, fleet: int, active: Seq<bool>, redundancy: nat, s: int) -> bool {
    &&& 0 <= s < fleet
    &&& !active[s]
    &&& gain_of(covering, active, redundancy, s as usize) > 0
}

/// Greedy prefers `t` to `s`: more gain; or as much, with `t` lit in
/// `previous` and `s` not; or equal on both, with `t` the lower-numbered.
pub open spec fn preferred(
    covering: Seq<Vec<usize>>,
    active: Seq<bool>,
    redundancy: nat,
    previous: Option<&[bool]>,
    t: int,
    s: int,
) -> bool {
    let gt = gain_of(covering, active, redundancy, t as usize);
    let gs = gain_of(covering, active, redundancy, s as usize);
    ||| gt > gs
    ||| gt == gs && was_lit(previous, t) && !was_lit(previous, s)
    ||| gt == gs && was_lit(previous, t) == was_lit(previous, s) && t < s
}

/// `s` is the satellite greedy lights next: a candidate no other candidate
/// is preferred to.
pub open spec fn is_greedy_pick(
    covering: Seq<Vec<usize>>,
    fleet: int,
    active: Seq<bool>,
    redundancy: nat,
    previous: Option<&[bool]>,
    s: int,
) -> bool {
    &&& candidate(covering, fleet, active, redundancy, s)
    &&& forall|t: int|
        #[trigger] candidate(covering, fleet, active, redundancy, t) ==> !preferred(
            covering,
            active,
            redundancy,
            previous,
            t,
            s,
        )
}

/// The satellite greedy lights next, if any dark satellite would help.
pub open spec fn greedy_pick(
    covering: Seq<Vec<usize>>,
    fleet: int,
    active: Seq<bool>,
    redundancy: nat,
    previous: Option<&[bool]>,
) -> Option<int> {
    if exists|s: int| is_greedy_pick(covering, fleet, active, redundancy, previous, s) {
        Some(choose|s: int| is_greedy_pick(covering, fleet, active, redundancy, previous, s))
    } else {
        None
    }
}

/// Where greedy lighting ends up from `active`: light the pick, again and
/// again, until no dark satellite would help any short point.
pub open spec fn greedy_from(
    covering: Seq<Vec<usize>>,
    fleet: int,
    active: Seq<bool>,
    redundancy: nat,
    previous: Option<&[bool]>,
) -> Seq<bool>
    decreases fleet - count_true(active),
{
    if active.len() != fleet {
        active
    } else {
        match greedy_pick(covering, fleet, active, redundancy, previous) {
            Some(s) => {
                proof {
                    lemma_count_true_switch(active, s, true);
                    lemma_count_true_le_len(active.update(s, true));
                }
                greedy_from(covering, fleet, active.update(s, true), redundancy, previous)
            },
            None => active,
        }
    }
}

/// Two candidates are never preferred to each other, and of two distinct
/// candidates one is preferred.
pub proof fn lemma_preferred_total(
    covering: Seq<Vec<usize>>,
    active: Seq<bool>,
    redundancy: nat,
    previous: Option<&[bool]>,
    t: int,
    s: int,
)
    ensures
        !(preferred(covering, active, redundancy, previous, t, s) && preferred(
            covering,
            active,
            redundancy,
            previous,
            s,
            t,
        )),
        t != s ==> preferred(covering, active, redundancy, previous, t, s) || preferred(
            covering,
            active,
            redundancy,
            previous,
            s,
            t,
        ),
        !preferred(covering, active, redundancy, previous, s, s),
{
}

/// Preference is transitive.
pub proof fn lemma_preferred_transitive(
    covering: Seq<Vec<usize>>,
    active: Seq<bool>,
    redundancy: nat,
    previous: Option<&[bool]>,
    a: int,
    b: int,
    c: int,
)
    requires
        preferred(covering, active, redundancy, previous, a, b),
        preferred(covering, active, redundancy, previous, b, c),
    ensures
        preferred(covering, active, redundancy, previous, a, c),
{
}

/// There is at most one greedy pick.
pub proof fn lemma_greedy_pick_unique(
    covering: Seq<Vec<usize>>,
    fleet: int,
    active: Seq<bool>,
    redundancy: nat,
    previous: Option<&[bool]>,
    s: int,
)
    requires
        is_greedy_pick(covering, fleet, active, redundancy, previous, s),
    ensures
        greedy_pick(covering, fleet, active, redundancy, previous) == Some(s),
{
    let c = choose|x: int| is_greedy_pick(covering, fleet, active, redundancy, previous, x);
    assert(is_greedy_pick(covering, fleet, active, redundancy, previous, c));
    if c != s {
        lemma_preferred_total(covering, active, redundancy, previous, c, s);
        assert(candidate(covering, fleet, active, redundancy, c));
        assert(candidate(covering, fleet, active, redundancy, s));
    }
}

proof fn lemma_best_candidate_upto(
    covering: Seq<Vec<usize>>,
    fleet: int,
    active: Seq<bool>,
    redundancy: nat,
    previous: Option<&[bool]>,
    k: int,
) -> (b: int)
    requires
        exists|t: int| 0 <= t < k && #[trigger] candidate(covering, fleet, active, redundancy, t),
    ensures
        0 <= b < k,
        candidate(covering, fleet, active, redundancy, b),
        forall|t: int|
            0 <= t < k && #[trigger] candidate(covering, fleet, active, redundancy, t) ==> !preferred(
                covering,
                active,
                redundancy,
                previous,
                t,
                b,
            ),
    decreases k,
{
    let last = k - 1;
    if exists|t: int| 0 <= t < last && #[trigger] candidate(covering, fleet, active, redundancy, t) {
        let b0 = lemma_best_candidate_upto(covering, fleet, active, redundancy, previous, last);
        if candidate(covering, fleet, active, redundancy, last) && preferred(
            covering,
            active,
            redundancy,
            previous,
            last,
            b0,
        ) {
            assert forall|t: int|
                0 <= t < k && #[trigger] candidate(covering, fleet, active, redundancy, t) implies !preferred(
                    covering,
                    active,
                    redundancy,
                    previous,
                    t,
                    last,
                ) by {
                lemma_preferred_total(covering, active, redundancy, previous, t, last);
                if t < last && preferred(covering, active, redundancy, previous, t, last) {
                    lemma_preferred_transitive(covering, active, redundancy, previous, t, last, b0);
                }
            }
            last
        } else {
            b0
        }
    } else {
        let t0 = choose|t: int| 0 <= t < k && #[trigger] candidate(covering, fleet, active, redundancy, t);
        assert(t0 == last);
        lemma_preferred_total(covering, active, redundancy, previous, last, last);
        last
    }
}

/// The satellite greedy lights next serves at least as many still-short
/// points as any other dark satellite of the fleet, and greedy stops only
/// when no dark satellite would serve any.
pub proof fn lemma_greedy_pick_serves_most(
    covering: Seq<Vec<usize>>,
    fleet: int,
    active: Seq<bool>,
    redundancy: nat,
    previous: Option<&[bool]>,
)
    ensures
        match greedy_pick(covering, fleet, active, redundancy, previous) {
            Some(s) => {
                &&& 0 <= s < fleet
                &&& !active[s]
                &&& gain_of(covering, active, redundancy, s as usize) > 0
                &&& forall|t: int|
                    0 <= t < fleet && !active[t] ==> #[trigger] gain_of(covering, active, redundancy, t as usize)
                        <= gain_of(covering, active, redundancy, s as usize)
                // Among equal gains: lit in `previous` first, then the lower-numbered.
                &&& forall|t: int|
                    0 <= t < fleet && !active[t] && #[trigger] gain_of(covering, active, redundancy, t as usize)
                        == gain_of(covering, active, redundancy, s as usize) ==> (was_lit(previous, t) ==> was_lit(
                        previous,
                        s,
                    )) && (was_lit(previous, t) == was_lit(previous, s) ==> s <= t)
            },
            None => forall|t: int|
                0 <= t < fleet && !active[t] ==> #[trigger] gain_of(covering, active, redundancy, t as usize) == 0,
        },
{
    match greedy_pick(covering, fleet, active, redundancy, previous) {
        Some(s) => {
            assert(is_greedy_pick(covering, fleet, active, redundancy, previous, s));
            assert forall|t: int| 0 <= t < fleet && !active[t] implies #[trigger] gain_of(
                covering,
                active,
                redundancy,
                t as usize,
            ) <= gain_of(covering, active, redundancy, s as usize) by {
                if gain_of(covering, active, redundancy, t as usize) > 0 {
                    assert(candidate(covering, fleet, active, redundancy, t));
                }
            }
            assert forall|t: int|
                0 <= t < fleet && !active[t] && #[trigger] gain_of(covering, active, redundancy, t as usize)
                    == gain_of(covering, active, redundancy, s as usize) implies (was_lit(previous, t) ==> was_lit(
                previous,
                s,
            )) && (was_lit(previous, t) == was_lit(previous, s) ==> s <= t) by {
                assert(candidate(covering, fleet, active, redundancy, t));
            }
        },
        None => {
            assert forall|t: int| 0 <= t < fleet && !active[t] implies #[trigger] gain_of(
                covering,
                active,
                redundancy,
                t as usize,
            ) == 0 by {
                if gain_of(covering, active, redundancy, t as usize) > 0 {
                    assert(candidate(covering, fleet, active, redundancy, t));
                    let b = lemma_best_candidate_upto(covering, fleet, active, redundancy, previous, fleet);
                    assert forall|u: int| #[trigger] candidate(covering, fleet, active, redundancy, u) implies !preferred(
                        covering,
                        active,
                        redundancy,
                        previous,
                        u,
                        b,
                    ) by {}
                    assert(is_greedy_pick(covering, fleet, active, redundancy, previous, b));
                }
            }
        },
    }
}

/// Greedy lighting stops only when no dark satellite of the fleet would serve
/// a point still short of its requirement, and it never switches one off.
pub proof fn lemma_greedy_stops_when_nothing_helps(
    covering: Seq<Vec<usize>>,
    fleet: int,
    active: Seq<bool>,
    redundancy: nat,
    previous: Option<&[bool]>,
)
    requires
        active.len() == fleet,
    ensures
        greedy_from(covering, fleet, active, redundancy, previous).len() == fleet,
        forall|t: int|
            0 <= t < fleet && active[t] ==> #[trigger] greedy_from(covering, fleet, active, redundancy, previous)[t],
        forall|t: int|
            0 <= t < fleet && !greedy_from(covering, fleet, active, redundancy, previous)[t] ==> #[trigger] gain_of(
                covering,
                greedy_from(covering, fleet, active, redundancy, previous),
                redundancy,
                t as usize,
            ) == 0,
    decreases fleet - count_true(active),
{
    lemma_greedy_pick_serves_most(covering, fleet, active, redundancy, previous);
    match greedy_pick(covering, fleet, active, redundancy, previous) {
        Some(s) => {
            lemma_count_true_switch(active, s, true);
            lemma_count_true_le_len(active.update(s, true));
            lemma_greedy_stops_when_nothing_helps(covering, fleet, active.update(s, true), redundancy, previous);
        },
        None => {},
    }
}

/// Entries of `xs` naming a point whose `need` is positive.
pub open spec fn entries_short(xs: Seq<usize>, need: Seq<usize>) -> nat
    decreases xs.len(),
{
    if xs.len() == 0 {
        0
    } else {
        entries_short(xs.drop_last(), need) + if need[xs.last() as int] > 0 {
            1nat
        } else {
            0nat
        }
    }
}

/// Entries of `xs` naming each point `p < upto` whose `need` is positive,
/// summed point by point.
pub open spec fn weighted_short(xs: Seq<usize>, need: Seq<usize>, upto: int) -> nat
    decreases upto,
{
    if upto <= 0 {
        0
    } else {
        weighted_short(xs, need, upto - 1) + if need[upto - 1] > 0 {
            count_of(xs, (upto - 1) as usize)
        } else {
            0
        }
    }
}

proof fn lemma_weighted_short_push(xs: Seq<usize>, x: usize, need: Seq<usize>, upto: int)
    requires
        0 <= upto <= usize::MAX + 1,
    ensures
        weighted_short(xs.push(x), need, upto) == weighted_short(xs, need, upto) + if x < upto && need[x as int]
            > 0 {
            1nat
        } else {
            0nat
        },
    decreases upto,
{
    if upto > 0 {
        lemma_weighted_short_push(xs, x, need, upto - 1);
        let v = (upto - 1) as usize;
        assert(v as int == upto - 1);
        lemma_count_of_push(xs, x, v);
        assert((x == v) == (x as int == upto - 1));
    }
}

/// Counting a point's entries one by one agrees with counting them point by
/// point.
pub proof fn lemma_entries_short(xs: Seq<usize>, need: Seq<usize>, n: int)
    requires
        all_below(xs, n),
        0 <= n <= usize::MAX + 1,
    ensures
        entries_short(xs, need) == weighted_short(xs, need, n),
    decreases xs.len(),
{
    if xs.len() == 0 {
        lemma_weighted_short_empty(xs, need, n);
    } else {
        let rest = xs.drop_last();
        assert(all_below(rest, n));
        lemma_entries_short(rest, need, n);
        assert(rest.push(xs.last()) =~= xs);
        lemma_weighted_short_push(rest, xs.last(), need, n);
    }
}

proof fn lemma_weighted_short_empty(xs: Seq<usize>, need: Seq<usize>, upto: int)
    requires
        xs.len() == 0,
    ensures
        weighted_short(xs, need, upto) == 0,
    decreases upto,
{
    if upto > 0 {
        lemma_weighted_short_empty(xs, need, upto - 1);
    }
}

/// Where `serves_t` lists point `p` as often as `covering[p]` lists `t`, and
/// `need` is each point's shortfall, counting `serves_t` point by point is
/// the gain of `t`.
pub proof fn lemma_weighted_is_gain(
    covering: Seq<Vec<usize>>,
    active: Seq<bool>,
    redundancy: nat,
    t: usize,
    serves_t: Seq<usize>,
    need: Seq<usize>,
    upto: int,
)
    requires
        0 <= upto <= covering.len(),
        need.len() == covering.len(),
        forall|k: int| 0 <= k < covering.len() ==> #[trigger] need[k] == shortfall(covering[k]@, active, redundancy),
        forall|p: int| 0 <= p < covering.len() ==> #[trigger] count_of(serves_t, p as usize) == count_of(covering[p]@, t),
    ensures
        weighted_short(serves_t, need, upto) == gain_upto(covering, active, redundancy, t, upto),
    decreases upto,
{
    if upto > 0 {
        lemma_weighted_is_gain(covering, active, redundancy, t, serves_t, need, upto - 1);
        assert(need[upto - 1] == shortfall(covering[upto - 1]@, active, redundancy));
        assert(count_of(serves_t, (upto - 1) as usize) == count_of(covering[upto - 1]@, t));
    }
}

/// Entries of `covering[0..upto]` naming satellite `s`.
pub open spec fn listings_upto(covering: Seq<Vec<usize>>, s: usize, upto: int) -> nat
    decreases upto,
{
    if upto <= 0 {
        0
    } else {
        listings_upto(covering, s, upto - 1) + count_of(covering[upto - 1]@, s)
    }
}

/// How many points list satellite `s`, once per listing.
pub open spec fn listings(covering: Seq<Vec<usize>>, s: usize) -> nat {
    listings_upto(covering, s, covering.len() as int)
}

/// The order the pruning pass visits satellites in: those dark in
/// `previous` first, then those listed fewer times, then the lower-numbered.
pub open spec fn prune_leq(covering: Seq<Vec<usize>>, previous: Option<&[bool]>) -> spec_fn(usize, usize) -> bool {
    |a: usize, b: usize|
        {
            let wa = was_lit(previous, a as int);
            let wb = was_lit(previous, b as int);
            let la = listings(covering, a);
            let lb = listings(covering, b);
            (!wa && wb) || (wa == wb && (la < lb || (la == lb && a <= b)))
        }
}

pub proof fn lemma_prune_leq_total(covering: Seq<Vec<usize>>, previous: Option<&[bool]>)
    ensures
        total_ordering(prune_leq(covering, previous)),
{
}

/// The lit satellites among `0..upto`, ascending.
pub open spec fn lit_upto(active: Seq<bool>, upto: int) -> Seq<usize>
    decreases upto,
{
    if upto <= 0 {
        Seq::empty()
    } else if active[upto - 1] {
        lit_upto(active, upto - 1).push((upto - 1) as usize)
    } else {
        lit_upto(active, upto - 1)
    }
}

/// The lit satellites of `active` in the order the pruning pass visits them.
pub open spec fn prune_order(covering: Seq<Vec<usize>>, active: Seq<bool>, previous: Option<&[bool]>) -> Seq<usize> {
    lit_upto(active, active.len() as int).sort_by(prune_leq(covering, previous))
}

/// Switching `s` off leaves every point that lists it above its requirement.
pub open spec fn can_switch_off(covering: Seq<Vec<usize>>, active: Seq<bool>, redundancy: nat, s: usize) -> bool {
    forall|p: int|
        0 <= p < covering.len() && (#[trigger] covering[p]@).contains(s) ==> count_lit(covering[p]@, active)
            > required(covering[p]@.len(), redundancy)
}

/// `active` after visiting `order[0..k]` in turn and switching off each
/// satellite of the fleet that is removable when its turn comes.
pub open spec fn prune_upto(
    covering: Seq<Vec<usize>>,
    active: Seq<bool>,
    redundancy: nat,
    order: Seq<usize>,
    k: int,
) -> Seq<bool>
    decreases k,
{
    if k <= 0 {
        active
    } else {
        let cur = prune_upto(covering, active, redundancy, order, k - 1);
        let s = order[k - 1];
        if (s as int) < cur.len() && can_switch_off(covering, cur, redundancy, s) {
            cur.update(s as int, false)
        } else {
            cur
        }
    }
}

/// What the pruning pass leaves lit of `active`.
pub open spec fn pruned(covering: Seq<Vec<usize>>, active: Seq<bool>, redundancy: nat, previous: Option<&[bool]>) -> Seq<bool> {
    let order = prune_order(covering, active, previous);
    prune_upto(covering, active, redundancy, order, order.len() as int)
}

/// Entries of `xs` naming each point `p < upto`, summed point by point.
pub open spec fn count_sum(xs: Seq<usize>, upto: int) -> nat
    decreases upto,
{
    if upto <= 0 {
        0
    } else {
        count_sum(xs, upto - 1) + count_of(xs, (upto - 1) as usize)
    }
}

proof fn lemma_count_sum_push(xs: Seq<usize>, x: usize, upto: int)
    requires
        0 <= upto <= usize::MAX + 1,
    ensures
        count_sum(xs.push(x), upto) == count_sum(xs, upto) + if x < upto {
            1nat
        } else {
            0nat
        },
    decreases upto,
{
    if upto > 0 {
        lemma_count_sum_push(xs, x, upto - 1);
        let v = (upto - 1) as usize;
        assert(v as int == upto - 1);
        lemma_count_of_push(xs, x, v);
        assert((x == v) == (x as int == upto - 1));
    }
}

proof fn lemma_count_sum_empty(xs: Seq<usize>, upto: int)
    requires
        xs.len() == 0,
    ensures
        count_sum(xs, upto) == 0,
    decreases upto,
{
    if upto > 0 {
        lemma_count_sum_empty(xs, upto - 1);
    }
}

/// Every entry of `xs` names a point below `n`, so counting per point counts
/// them all.
pub proof fn lemma_count_sum_len(xs: Seq<usize>, n: int)
    requires
        all_below(xs, n),
        0 <= n <= usize::MAX + 1,
    ensures
        count_sum(xs, n) == xs.len(),
    decreases xs.len(),
{
    if xs.len() == 0 {
        lemma_count_sum_empty(xs, n);
    } else {
        let rest = xs.drop_last();
        assert(all_below(rest, n));
        lemma_count_sum_len(rest, n);
        assert(rest.push(xs.last()) =~= xs);
        lemma_count_sum_push(rest, xs.last(), n);
    }
}

/// Where `serves_t` lists each point as often as that point lists `t`,
/// counting `serves_t` per point counts the listings of `t`.
pub proof fn lemma_count_sum_is_listings(covering: Seq<Vec<usize>>, t: usize, serves_t: Seq<usize>, upto: int)
    requires
        0 <= upto <= covering.len(),
        forall|p: int| 0 <= p < covering.len() ==> #[trigger] count_of(serves_t, p as usize) == count_of(covering[p]@, t),
    ensures
        count_sum(serves_t, upto) == listings_upto(covering, t, upto),
    decreases upto,
{
    if upto > 0 {
        lemma_count_sum_is_listings(covering, t, serves_t, upto - 1);
        assert(count_of(serves_t, (upto - 1) as usize) == count_of(covering[upto - 1]@, t));
    }
}

/// Pruning only ever switches satellites off.
pub proof fn lemma_prune_upto_only_dims(
    covering: Seq<Vec<usize>>,
    active: Seq<bool>,
    redundancy: nat,
    order: Seq<usize>,
    k: int,
)
    ensures
        prune_upto(covering, active, redundancy, order, k).len() == active.len(),
        forall|s: int|
            0 <= s < active.len() && #[trigger] prune_upto(covering, active, redundancy, order, k)[s] ==> active[s],
    decreases k,
{
    if k > 0 {
        lemma_prune_upto_only_dims(covering, active, redundancy, order, k - 1);
    }
}

/// A plan lighting only satellites another lights lights no more of them.
pub proof fn lemma_count_true_subset(a: Seq<bool>, b: Seq<bool>)
    requires
        a.len() == b.len(),
        forall|s: int| 0 <= s < a.len() && #[trigger] a[s] ==> b[s],
    ensures
        count_true(a) <= count_true(b),
    decreases a.len(),
{
    if a.len() > 0 {
        let (ra, rb) = (a.drop_last(), b.drop_last());
        assert forall|s: int| 0 <= s < ra.len() && #[trigger] ra[s] implies rb[s] by {
            assert(a[s]);
        }
        lemma_count_true_subset(ra, rb);
    }
}

/// Pruning never lights more: whatever the pass leaves lit was lit before
/// it, so it never lights more satellites than it was given.
pub proof fn lemma_pruning_never_lights_more(
    covering: Seq<Vec<usize>>,
    active: Seq<bool>,
    redundancy: nat,
    previous: Option<&[bool]>,
)
    ensures
        pruned(covering, active, redundancy, previous).len() == active.len(),
        forall|s: int|
            0 <= s < active.len() && #[trigger] pruned(covering, active, redundancy, previous)[s] ==> active[s],
        count_true(pruned(covering, active, redundancy, previous)) <= count_true(active),
{
    let order = prune_order(covering, active, previous);
    lemma_prune_upto_only_dims(covering, active, redundancy, order, order.len() as int);
    lemma_count_true_subset(pruned(covering, active, redundancy, previous), active);
}

} // verus!
