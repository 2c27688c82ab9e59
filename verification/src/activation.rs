//! Which satellites actually have to be switched on.
//!
//! Visibility is not necessity: the interesting number is the smallest set of
//! satellites that still serves every sample point of the band at the required
//! redundancy. That is a minimum set cover. [`select_active`] runs the greedy
//! rule followed by a pruning pass, [`cover_lower_bound`] supplies an
//! independently computed lower bound, and [`exact_activation`] searches for
//! the provably smallest single-coverage plan.

use vstd::prelude::*;
use crate::tally::{
    all_below, count_lit, lemma_all_lit_counts_all, count_lit_exec, count_of, count_true, count_true_exec,
    lemma_count_lit_ge_count_of, lemma_count_lit_off_le, lemma_count_lit_switch_off, lemma_count_lit_switch_on,
    lemma_count_of_contains, lemma_count_of_no_dup, lemma_count_of_push, lemma_count_of_take,
    lemma_count_of_take_le, lemma_count_true_le_len, lemma_count_true_switch,
};
use crate::order::{ascending, key_leq, stable_sort_by_key};
use crate::greedy::{
    candidate, entries_short, gain_of, greedy_from, greedy_pick, is_greedy_pick, lemma_entries_short,
    lemma_greedy_pick_unique, lemma_preferred_total, lemma_preferred_transitive, lemma_weighted_is_gain,
    preferred, lemma_count_sum_is_listings, lemma_count_sum_len, lemma_prune_leq_total, listings, lit_upto,
    prune_leq, prune_order, prune_upto, pruned, can_switch_off, lemma_pruning_never_lights_more,
};
use vstd::seq_lib::lemma_sorted_unique;
pub use crate::cover_bound::cover_lower_bound;
pub use crate::exact_cover::{exact_activation, exact_min_cover};
pub use crate::schedule::{smooth_schedule, switch_count};

verus! {

/// Outcome of planning one instant.
#[derive(Debug, Clone)]
pub struct ActivationPlan {
    /// One flag per satellite: is it lit?
    pub active: Vec<bool>,
    /// How many are lit.
    pub lit: usize,
    /// Points that could not reach the redundancy even with the whole fleet on.
    pub unservable: Vec<usize>,
}

/// Every satellite named in `covering` is an index into a fleet of `fleet`.
pub open spec fn in_fleet(covering: Seq<Vec<usize>>, fleet: int) -> bool {
    forall|p: int| 0 <= p < covering.len() ==> all_below(#[trigger] covering[p]@, fleet)
}

/// Servers a point asks for: the redundancy, capped at how many can see it.
pub open spec fn required(len: nat, redundancy: nat) -> nat {
    if redundancy <= len {
        redundancy
    } else {
        len
    }
}

/// Every point is served by at least its required number of lit satellites.
pub open spec fn covers(covering: Seq<Vec<usize>>, active: Seq<bool>, redundancy: nat) -> bool {
    forall|p: int|
        0 <= p < covering.len() ==> count_lit(#[trigger] covering[p]@, active) >= required(
            covering[p]@.len(),
            redundancy,
        )
}

/// Lit satellite `s` is the reason some point it serves still meets its
/// requirement: switching it off would leave that point short.
pub open spec fn needed_by_some_point(
    covering: Seq<Vec<usize>>,
    active: Seq<bool>,
    redundancy: nat,
    s: usize,
) -> bool {
    exists|p: int|
        0 <= p < covering.len() && (#[trigger] covering[p]@).contains(s) && count_lit(
            covering[p]@,
            active,
        ) <= required(covering[p]@.len(), redundancy)
}

/// No lit satellite can be switched off without leaving some point short.
pub open spec fn irredundant(covering: Seq<Vec<usize>>, active: Seq<bool>, redundancy: nat) -> bool {
    forall|s: int|
        0 <= s < active.len() && #[trigger] active[s] ==> needed_by_some_point(
            covering,
            active,
            redundancy,
            s as usize,
        )
}

/// No point lists the same satellite twice.
pub open spec fn no_repeats(covering: Seq<Vec<usize>>) -> bool {
    forall|p: int| 0 <= p < covering.len() ==> (#[trigger] covering[p]@).no_duplicates()
}

/// Indices, ascending, of the first `n` points that fewer than `redundancy`
/// satellites can see.
pub open spec fn unservable_upto(covering: Seq<Vec<usize>>, redundancy: nat, n: int) -> Seq<usize>
    decreases n,
{
    if n <= 0 {
        Seq::empty()
    } else if covering[n - 1]@.len() < redundancy {
        unservable_upto(covering, redundancy, n - 1).push((n - 1) as usize)
    } else {
        unservable_upto(covering, redundancy, n - 1)
    }
}

/// Indices, ascending, of the points that fewer than `redundancy` satellites
/// can see.
pub open spec fn unservable_points(covering: Seq<Vec<usize>>, redundancy: nat) -> Seq<usize> {
    unservable_upto(covering, redundancy, covering.len() as int)
}

/// Servers a point still lacks under `active`.
pub open spec fn shortfall(sats: Seq<usize>, active: Seq<bool>, redundancy: nat) -> int {
    let want = required(sats.len(), redundancy) as int;
    let have = count_lit(sats, active) as int;
    if want > have {
        want - have
    } else {
        0
    }
}

/// `serves[t]` lists point `q` once for every time `covering[q]` lists `t`.
pub open spec fn serves_matches(serves: Seq<Vec<usize>>, covering: Seq<Vec<usize>>) -> bool {
    &&& forall|t: int| 0 <= t < serves.len() ==> all_below(#[trigger] serves[t]@, covering.len() as int)
    &&& forall|t: usize, q: usize|
        t < serves.len() && q < covering.len() ==> #[trigger] count_of(serves[t as int]@, q)
            == count_of(covering[q as int]@, t)
}

/// Was satellite `s` lit in the previous plan? Satellites the previous plan
/// does not mention count as dark.
pub open spec fn was_lit(previous: Option<&[bool]>, s: int) -> bool {
    match previous {
        Some(prev) => 0 <= s < prev@.len() && prev@[s],
        None => false,
    }
}

pub(crate) fn was_on(previous: Option<&[bool]>, s: usize) -> (b: bool)
    ensures
        b == was_lit(previous, s as int),
{
    match previous {
        Some(prev) => s < prev.len() && prev[s],
        None => false,
    }
}

/// For every satellite, the points it can serve (a point appears once per
/// listing of the satellite in that point's covering set).
pub(crate) fn build_serves(covering: &[Vec<usize>], fleet: usize) -> (serves: Vec<Vec<usize>>)
    requires
        in_fleet(covering@, fleet as int),
    ensures
        serves@.len() == fleet,
        serves_matches(serves@, covering@),
{
    let mut serves: Vec<Vec<usize>> = Vec::new();
    let mut s: usize = 0;
    while s < fleet
        invariant
            s <= fleet,
            serves@.len() == s,
            forall|t: int| 0 <= t < s ==> (#[trigger] serves@[t])@.len() == 0,
        decreases fleet - s,
    {
        serves.push(Vec::new());
        s = s + 1;
    }
    let n = covering.len();
    let mut p: usize = 0;
    while p < n
        invariant
            p <= n,
            n == covering@.len(),
            in_fleet(covering@, fleet as int),
            serves@.len() == fleet,
            forall|t: int| 0 <= t < serves@.len() ==> all_below(#[trigger] serves@[t]@, p as int),
            forall|t: usize, q: usize|
                t < fleet && q < n ==> #[trigger] count_of(serves@[t as int]@, q) == if q < p {
                    count_of(covering@[q as int]@, t)
                } else {
                    0
                },
        decreases n - p,
    {
        let sats = &covering[p];
        let mut i: usize = 0;
        while i < sats.len()
            invariant
                i <= sats@.len(),
                p < n,
                n == covering@.len(),
                sats@ == covering@[p as int]@,
                in_fleet(covering@, fleet as int),
                serves@.len() == fleet,
                forall|t: int| 0 <= t < serves@.len() ==> all_below(#[trigger] serves@[t]@, p as int + 1),
                forall|t: usize, q: usize|
                    t < fleet && q < n ==> #[trigger] count_of(serves@[t as int]@, q) == if q < p {
                        count_of(covering@[q as int]@, t)
                    } else if q == p {
                        count_of(sats@.take(i as int), t)
                    } else {
                        0
                    },
            decreases sats@.len() - i,
        {
            let t = sats[i];
            assert(all_below(covering@[p as int]@, fleet as int));
            assert(t < fleet);
            let ghost old_serves = serves@;
            serves[t].push(p);
            proof {
                assert forall|u: usize, q: usize| u < fleet && q < n implies #[trigger] count_of(
                    serves@[u as int]@,
                    q,
                ) == if q < p {
                    count_of(covering@[q as int]@, u)
                } else if q == p {
                    count_of(sats@.take(i as int + 1), u)
                } else {
                    0
                } by {
                    lemma_count_of_take(sats@, i as int, u);
                    if u == t {
                        lemma_count_of_push(old_serves[u as int]@, p, q);
                        assert(count_of(old_serves[u as int]@, q) == if q < p {
                            count_of(covering@[q as int]@, u)
                        } else if q == p {
                            count_of(sats@.take(i as int), u)
                        } else {
                            0
                        });
                    } else {
                        assert(serves@[u as int] == old_serves[u as int]);
                        assert(count_of(old_serves[u as int]@, q) == if q < p {
                            count_of(covering@[q as int]@, u)
                        } else if q == p {
                            count_of(sats@.take(i as int), u)
                        } else {
                            0
                        });
                    }
                }
                assert forall|u: int| 0 <= u < serves@.len() implies all_below(
                    #[trigger] serves@[u]@,
                    p as int + 1,
                ) by {
                    if u == t {
                        assert(all_below(old_serves[u]@, p as int + 1));
                        assert forall|k: int| 0 <= k < serves@[u]@.len() implies #[trigger] serves@[u]@[k]
                            < p as int + 1 by {
                            if k < old_serves[u]@.len() {
                                assert(serves@[u]@[k] == old_serves[u]@[k]);
                            }
                        }
                    } else {
                        assert(serves@[u] == old_serves[u]);
                    }
                }
            }
            i = i + 1;
        }
        proof {
            assert(sats@.take(i as int) =~= sats@);
        }
        p = p + 1;
    }
    serves
}

/// Greedy phase: starting from `active`, keep lighting the dark satellite that
/// serves the most points still short of their requirement (ties go to one
/// that was lit in `previous`, then to the lower index) until no dark
/// satellite helps any short point.
fn greedy_fill(
    covering: &[Vec<usize>],
    serves: &Vec<Vec<usize>>,
    fleet: usize,
    redundancy: usize,
    previous: Option<&[bool]>,
    active: &mut Vec<bool>,
)
    requires
        in_fleet(covering@, fleet as int),
        serves@.len() == fleet,
        serves_matches(serves@, covering@),
        old(active)@.len() == fleet,
    ensures
        final(active)@.len() == fleet,
        final(active)@ == greedy_from(covering@, fleet as int, old(active)@, redundancy as nat, previous),
        forall|s: int| 0 <= s < fleet && old(active)@[s] ==> #[trigger] final(active)@[s],
        covers(covering@, final(active)@, redundancy as nat),
{
    let n = covering.len();
    let mut need: Vec<usize> = Vec::new();
    let mut q: usize = 0;
    while q < n
        invariant
            q <= n,
            n == covering@.len(),
            in_fleet(covering@, fleet as int),
            active@.len() == fleet,
            need@.len() == q,
            forall|k: int| 0 <= k < q ==> #[trigger] need@[k] == shortfall(covering@[k]@, active@, redundancy as nat),
        decreases n - q,
    {
        assert(all_below(covering@[q as int]@, fleet as int));
        let have = count_lit_exec(&covering[q], active);
        let len = covering[q].len();
        let want = if redundancy <= len { redundancy } else { len };
        need.push(if want > have { want - have } else { 0 });
        q = q + 1;
    }
    let ghost start = active@;
    loop
        invariant
            n == covering@.len(),
            in_fleet(covering@, fleet as int),
            serves@.len() == fleet,
            serves_matches(serves@, covering@),
            active@.len() == fleet,
            need@.len() == n,
            forall|k: int| 0 <= k < n ==> #[trigger] need@[k] == shortfall(covering@[k]@, active@, redundancy as nat),
            forall|s: int| 0 <= s < fleet && start[s] ==> #[trigger] active@[s],
            start.len() == fleet,
            greedy_from(covering@, fleet as int, active@, redundancy as nat, previous) == greedy_from(
                covering@,
                fleet as int,
                start,
                redundancy as nat,
                previous,
            ),
        ensures
            active@ == greedy_from(covering@, fleet as int, start, redundancy as nat, previous),
            active@.len() == fleet,
            need@.len() == n,
            forall|k: int| 0 <= k < n ==> #[trigger] need@[k] == shortfall(covering@[k]@, active@, redundancy as nat),
            forall|s: int| 0 <= s < fleet && start[s] ==> #[trigger] active@[s],
            forall|t: int, k: int|
                0 <= t < fleet && !active@[t] && 0 <= k < serves@[t]@.len() ==> need@[#[trigger] serves@[t]@[k] as int] == 0,
        decreases fleet - count_true(active@),
    {
        let mut found = false;
        let mut best: usize = 0;
        let mut best_gain: usize = 0;
        let mut best_was = false;
        let mut s: usize = 0;
        while s < fleet
            invariant
                s <= fleet,
                n == covering@.len(),
                serves@.len() == fleet,
                serves_matches(serves@, covering@),
                active@.len() == fleet,
                need@.len() == n,
                forall|k: int| 0 <= k < n ==> #[trigger] need@[k] == shortfall(covering@[k]@, active@, redundancy as nat),
                found ==> best < s && candidate(covering@, fleet as int, active@, redundancy as nat, best as int),
                found ==> best_gain == gain_of(covering@, active@, redundancy as nat, best) && best_was == was_lit(
                    previous,
                    best as int,
                ),
                found ==> forall|t: int|
                    0 <= t < s && #[trigger] candidate(covering@, fleet as int, active@, redundancy as nat, t)
                        ==> !preferred(covering@, active@, redundancy as nat, previous, t, best as int),
                !found ==> forall|t: int|
                    0 <= t < s ==> !#[trigger] candidate(covering@, fleet as int, active@, redundancy as nat, t),
                !found ==> forall|t: int, k: int|
                    0 <= t < s && !active@[t] && 0 <= k < serves@[t]@.len() ==> need@[#[trigger] serves@[t]@[k] as int] == 0,
            decreases fleet - s,
        {
            if !active[s] {
                let pts = &serves[s];
                let mut gain: usize = 0;
                let mut j: usize = 0;
                while j < pts.len()
                    invariant
                        j <= pts@.len(),
                        gain <= j,
                        gain == entries_short(pts@.take(j as int), need@),
                        pts@ == serves@[s as int]@,
                        all_below(pts@, n as int),
                        need@.len() == n,
                        gain == 0 ==> forall|k: int| 0 <= k < j ==> need@[#[trigger] pts@[k] as int] == 0,
                    decreases pts@.len() - j,
                {
                    assert(pts@[j as int] < n);
                    proof {
                        assert(pts@.take(j as int + 1).drop_last() =~= pts@.take(j as int));
                    }
                    if need[pts[j]] > 0 {
                        gain = gain + 1;
                    }
                    j = j + 1;
                }
                proof {
                    assert(pts@.take(j as int) =~= pts@);
                    lemma_entries_short(pts@, need@, n as int);
                    assert forall|p: int| 0 <= p < covering@.len() implies #[trigger] count_of(pts@, p as usize)
                        == count_of(covering@[p]@, s) by {
                        assert(count_of(serves@[s as int]@, p as usize) == count_of(covering@[p as int]@, s));
                    }
                    lemma_weighted_is_gain(covering@, active@, redundancy as nat, s, pts@, need@, n as int);
                    assert(gain == gain_of(covering@, active@, redundancy as nat, s));
                }
                if gain > 0 {
                    let on = was_on(previous, s);
                    let better = !found || gain > best_gain || (gain == best_gain && on && !best_was);
                    proof {
                        assert(candidate(covering@, fleet as int, active@, redundancy as nat, s as int));
                        if found {
                            lemma_preferred_total(covering@, active@, redundancy as nat, previous, s as int, best as int);
                            if better {
                                assert(preferred(covering@, active@, redundancy as nat, previous, s as int, best as int));
                                assert forall|t: int|
                                    0 <= t < s + 1 && #[trigger] candidate(
                                        covering@,
                                        fleet as int,
                                        active@,
                                        redundancy as nat,
                                        t,
                                    ) implies !preferred(covering@, active@, redundancy as nat, previous, t, s as int) by {
                                    lemma_preferred_total(covering@, active@, redundancy as nat, previous, t, s as int);
                                    if t < s && preferred(covering@, active@, redundancy as nat, previous, t, s as int) {
                                        lemma_preferred_transitive(
                                            covering@,
                                            active@,
                                            redundancy as nat,
                                            previous,
                                            t,
                                            s as int,
                                            best as int,
                                        );
                                    }
                                }
                            } else {
                                assert(!preferred(covering@, active@, redundancy as nat, previous, s as int, best as int));
                            }
                        } else {
                            assert forall|t: int|
                                0 <= t < s + 1 && #[trigger] candidate(
                                    covering@,
                                    fleet as int,
                                    active@,
                                    redundancy as nat,
                                    t,
                                ) implies !preferred(covering@, active@, redundancy as nat, previous, t, s as int) by {
                                lemma_preferred_total(covering@, active@, redundancy as nat, previous, t, s as int);
                            }
                        }
                    }
                    if better {
                        found = true;
                        best = s;
                        best_gain = gain;
                        best_was = on;
                    }
                } else {
                    proof {
                        assert(!candidate(covering@, fleet as int, active@, redundancy as nat, s as int));
                    }
                }
            } else {
                proof {
                    assert(!candidate(covering@, fleet as int, active@, redundancy as nat, s as int));
                }
            }
            s = s + 1;
        }
        if !found {
            proof {
                assert(!exists|x: int| is_greedy_pick(covering@, fleet as int, active@, redundancy as nat, previous, x));
                assert(greedy_pick(covering@, fleet as int, active@, redundancy as nat, previous) is None);
            }
            break;
        }
        proof {
            assert(is_greedy_pick(covering@, fleet as int, active@, redundancy as nat, previous, best as int));
            lemma_greedy_pick_unique(covering@, fleet as int, active@, redundancy as nat, previous, best as int);
            assert(greedy_from(covering@, fleet as int, active@, redundancy as nat, previous) == greedy_from(
                covering@,
                fleet as int,
                active@.update(best as int, true),
                redundancy as nat,
                previous,
            ));
        }
        proof {
            lemma_count_true_switch(active@, best as int, true);
            lemma_count_true_le_len(active@.update(best as int, true));
        }
        let ghost before = active@;
        active.set(best, true);
        let pts = &serves[best];
        let mut j: usize = 0;
        while j < pts.len()
            invariant
                j <= pts@.len(),
                pts@ == serves@[best as int]@,
                all_below(pts@, n as int),
                best < fleet,
                n == covering@.len(),
                in_fleet(covering@, fleet as int),
                serves@.len() == fleet,
                serves_matches(serves@, covering@),
                need@.len() == n,
                before.len() == fleet,
                !before[best as int],
                active@ == before.update(best as int, true),
                forall|k: int| 0 <= k < n ==> #[trigger] need@[k] == {
                    let want = required(covering@[k]@.len(), redundancy as nat) as int;
                    let have = count_lit(covering@[k]@, before) + count_of(pts@.take(j as int), k as usize);
                    if want > have { want - have } else { 0 }
                },
            decreases pts@.len() - j,
        {
            let p = pts[j];
            assert(p < n);
            proof {
                assert forall|k: int| 0 <= k < n implies #[trigger] count_of(pts@.take(j as int + 1), k as usize)
                    == count_of(pts@.take(j as int), k as usize) + if p as int == k { 1nat } else { 0nat } by {
                    lemma_count_of_take(pts@, j as int, k as usize);
                }
            }
            if need[p] > 0 {
                let v = need[p] - 1;
                need.set(p, v);
            }
            j = j + 1;
        }
        proof {
            assert(pts@.take(j as int) =~= pts@);
            assert forall|k: int| 0 <= k < n implies #[trigger] need@[k] == shortfall(
                covering@[k]@,
                active@,
                redundancy as nat,
            ) by {
                assert(all_below(covering@[k]@, fleet as int));
                lemma_count_lit_switch_on(covering@[k]@, before, best);
                assert(count_of(serves@[best as int]@, k as usize) == count_of(covering@[k]@, best));
            }
        }
    }
    proof {
        assert forall|k: int| 0 <= k < n implies count_lit(#[trigger] covering@[k]@, active@) >= required(
            covering@[k]@.len(),
            redundancy as nat,
        ) by {
            if count_lit(covering@[k]@, active@) < required(covering@[k]@.len(), redundancy as nat) {
                assert(need@[k] > 0);
                // some satellite of this point is still dark
                assert(exists|i: int| 0 <= i < covering@[k]@.len() && !active@[covering@[k]@[i] as int]) by {
                    if forall|i: int| 0 <= i < covering@[k]@.len() ==> active@[covering@[k]@[i] as int] {
                        lemma_all_lit_counts_all(covering@[k]@, active@);
                    }
                }
                let i = choose|i: int| 0 <= i < covering@[k]@.len() && !active@[covering@[k]@[i] as int];
                let t = covering@[k]@[i];
                assert(all_below(covering@[k]@, fleet as int));
                assert(t < fleet);
                lemma_count_of_contains(covering@[k]@, t);
                assert(count_of(serves@[t as int]@, k as usize) == count_of(covering@[k]@, t));
                lemma_count_of_contains(serves@[t as int]@, k as usize);
                let m = choose|m: int| 0 <= m < serves@[t as int]@.len() && serves@[t as int]@[m] == k as usize;
                assert(need@[serves@[t as int]@[m] as int] == 0);
            }
        }
    }
}

/// Pruning phase: visit the lit satellites, those dark in `previous` first and
/// then those serving fewer points, and switch off each one whose points all
/// keep more than their requirement without it.
fn prune_redundant(
    covering: &[Vec<usize>],
    serves: &Vec<Vec<usize>>,
    fleet: usize,
    redundancy: usize,
    previous: Option<&[bool]>,
    active: &mut Vec<bool>,
)
    requires
        in_fleet(covering@, fleet as int),
        serves@.len() == fleet,
        serves_matches(serves@, covering@),
        old(active)@.len() == fleet,
        covers(covering@, old(active)@, redundancy as nat),
    ensures
        final(active)@.len() == fleet,
        final(active)@ == pruned(covering@, old(active)@, redundancy as nat, previous),
        forall|s: int| 0 <= s < fleet && #[trigger] final(active)@[s] ==> old(active)@[s],
        irredundant(covering@, final(active)@, redundancy as nat),
        no_repeats(covering@) ==> covers(covering@, final(active)@, redundancy as nat),
{
    let n = covering.len();
    let ghost start = active@;
    let mut cover_count: Vec<usize> = Vec::new();
    let mut want: Vec<usize> = Vec::new();
    let mut q: usize = 0;
    while q < n
        invariant
            q <= n,
            n == covering@.len(),
            in_fleet(covering@, fleet as int),
            active@.len() == fleet,
            cover_count@.len() == q,
            want@.len() == q,
            forall|k: int| 0 <= k < q ==> #[trigger] cover_count@[k] == count_lit(covering@[k]@, active@),
            forall|k: int| 0 <= k < q ==> #[trigger] want@[k] == required(covering@[k]@.len(), redundancy as nat),
        decreases n - q,
    {
        assert(all_below(covering@[q as int]@, fleet as int));
        cover_count.push(count_lit_exec(&covering[q], active));
        let len = covering[q].len();
        want.push(if redundancy <= len { redundancy } else { len });
        q = q + 1;
    }
    // Shed satellites that were dark last step first, then the least useful.
    let mut lit_now: Vec<usize> = Vec::new();
    let mut flag: Vec<bool> = Vec::new();
    let mut weight: Vec<usize> = Vec::new();
    let mut s: usize = 0;
    while s < fleet
        invariant
            s <= fleet,
            active@.len() == fleet,
            serves@.len() == fleet,
            flag@.len() == s,
            weight@.len() == s,
            forall|k: int| 0 <= k < lit_now@.len() ==> #[trigger] lit_now@[k] < s,
            lit_now@.no_duplicates(),
            forall|t: usize| lit_now@.contains(t) <==> (t < s && active@[t as int]),
            lit_now@ == lit_upto(active@, s as int),
            ascending(lit_now@),
            n == covering@.len(),
            serves_matches(serves@, covering@),
            forall|t: int| 0 <= t < s ==> #[trigger] flag@[t] == was_lit(previous, t),
            forall|t: int| 0 <= t < s ==> #[trigger] weight@[t] == listings(covering@, t as usize),
        decreases fleet - s,
    {
        if active[s] {
            proof {
                assert(!lit_now@.contains(s)) by {
                    if lit_now@.contains(s) {
                        let k = choose|k: int| 0 <= k < lit_now@.len() && lit_now@[k] == s;
                        assert(lit_now@[k] < s);
                    }
                }
            }
            let ghost old_lit = lit_now@;
            lit_now.push(s);
            proof {
                assert forall|a: int, b: int| 0 <= a < b < lit_now@.len() implies #[trigger] lit_now@[a]
                    < #[trigger] lit_now@[b] by {
                    if b == lit_now@.len() - 1 {
                        assert(old_lit[a] < s);
                    } else {
                        assert(old_lit[a] < old_lit[b]);
                    }
                }
                assert forall|t: usize| lit_now@.contains(t) <==> (t < s + 1 && active@[t as int]) by {
                    if t == s {
                        assert(lit_now@[old_lit.len() as int] == s);
                    }
                    if lit_now@.contains(t) && t != s {
                        let k = choose|k: int| 0 <= k < lit_now@.len() && lit_now@[k] == t;
                        assert(old_lit[k] == t);
                        assert(old_lit.contains(t));
                    }
                    if t < s && active@[t as int] {
                        assert(old_lit.contains(t));
                        let k = choose|k: int| 0 <= k < old_lit.len() && old_lit[k] == t;
                        assert(lit_now@[k] == t);
                    }
                }
            }
        } else {
            proof {
                assert forall|t: usize| lit_now@.contains(t) <==> (t < s + 1 && active@[t as int]) by {
                    if lit_now@.contains(t) {
                        let k = choose|k: int| 0 <= k < lit_now@.len() && lit_now@[k] == t;
                        assert(lit_now@[k] < s);
                    }
                }
            }
        }
        flag.push(was_on(previous, s));
        proof {
            assert(all_below(serves@[s as int]@, n as int));
            lemma_count_sum_len(serves@[s as int]@, n as int);
            assert forall|p: int| 0 <= p < covering@.len() implies #[trigger] count_of(serves@[s as int]@, p as usize)
                == count_of(covering@[p]@, s) by {
                assert(count_of(serves@[s as int]@, p as usize) == count_of(covering@[p as int]@, s));
            }
            lemma_count_sum_is_listings(covering@, s, serves@[s as int]@, n as int);
        }
        weight.push(serves[s].len());
        s = s + 1;
    }
    let order = stable_sort_by_key(&lit_now, &flag, &weight);
    proof {
        let leq = prune_leq(covering@, previous);
        let target = lit_upto(active@, fleet as int).sort_by(leq);
        lemma_prune_leq_total(covering@, previous);
        lit_upto(active@, fleet as int).lemma_sort_by_ensures(leq);
        assert forall|a: int, b: int| 0 <= a < b < order@.len() implies #[trigger] leq(order@[a], order@[b]) by {
            assert(key_leq(flag@, weight@)(order@[a], order@[b]));
            assert(order@.contains(order@[a]));
            assert(order@.contains(order@[b]));
            assert(lit_now@.contains(order@[a]));
            assert(lit_now@.contains(order@[b]));
        }
        lemma_sorted_unique(order@, target, leq);
        assert(order@ == prune_order(covering@, active@, previous));
    }
    proof {
        assert forall|k: int| 0 <= k < order@.len() implies #[trigger] order@[k] < fleet && active@[order@[k] as int] by {
            assert(order@.contains(order@[k]));
            assert(lit_now@.contains(order@[k]));
        }
    }
    let mut idx: usize = 0;
    while idx < order.len()
        invariant
            idx <= order@.len(),
            n == covering@.len(),
            in_fleet(covering@, fleet as int),
            serves@.len() == fleet,
            serves_matches(serves@, covering@),
            active@.len() == fleet,
            cover_count@.len() == n,
            want@.len() == n,
            forall|k: int| 0 <= k < n ==> #[trigger] cover_count@[k] == count_lit(covering@[k]@, active@),
            forall|k: int| 0 <= k < n ==> #[trigger] want@[k] == required(covering@[k]@.len(), redundancy as nat),
            order@.no_duplicates(),
            forall|k: int| 0 <= k < order@.len() ==> #[trigger] order@[k] < fleet,
            forall|k: int| idx <= k < order@.len() ==> active@[#[trigger] order@[k] as int],
            forall|t: usize| t < fleet && active@[t as int] ==> order@.contains(t),
            forall|k: int| 0 <= k < idx && active@[#[trigger] order@[k] as int] ==> needed_by_some_point(
                covering@,
                active@,
                redundancy as nat,
                order@[k],
            ),
            forall|t: int| 0 <= t < fleet && #[trigger] active@[t] ==> start[t],
            no_repeats(covering@) ==> covers(covering@, active@, redundancy as nat),
            active@ == prune_upto(covering@, start, redundancy as nat, order@, idx as int),
            order@ == prune_order(covering@, start, previous),
        decreases order@.len() - idx,
    {
        let s = order[idx];
        let pts = &serves[s];
        let mut removable = true;
        let mut j: usize = 0;
        while j < pts.len()
            invariant
                j <= pts@.len(),
                pts@ == serves@[s as int]@,
                all_below(pts@, n as int),
                cover_count@.len() == n,
                want@.len() == n,
                removable ==> forall|k: int| 0 <= k < j ==> cover_count@[#[trigger] pts@[k] as int] > want@[pts@[k] as int],
                !removable ==> exists|k: int| 0 <= k < j && cover_count@[#[trigger] pts@[k] as int] <= want@[pts@[k] as int],
            decreases pts@.len() - j,
        {
            assert(pts@[j as int] < n);
            if cover_count[pts[j]] <= want[pts[j]] {
                removable = false;
            }
            j = j + 1;
        }
        proof {
            if removable {
                assert forall|p: int|
                    0 <= p < covering@.len() && (#[trigger] covering@[p]@).contains(s) implies count_lit(
                    covering@[p]@,
                    active@,
                ) > required(covering@[p]@.len(), redundancy as nat) by {
                    lemma_count_of_contains(covering@[p]@, s);
                    assert(count_of(serves@[s as int]@, p as usize) == count_of(covering@[p as int]@, s));
                    lemma_count_of_contains(pts@, p as usize);
                    let m = choose|m: int| 0 <= m < pts@.len() && pts@[m] == p as usize;
                    assert(cover_count@[pts@[m] as int] > want@[pts@[m] as int]);
                }
                assert(can_switch_off(covering@, active@, redundancy as nat, s));
            } else {
                let m = choose|m: int|
                    0 <= m < pts@.len() && cover_count@[#[trigger] pts@[m] as int] <= want@[pts@[m] as int];
                let w = pts@[m] as int;
                lemma_count_of_contains(pts@, w as usize);
                assert(count_of(serves@[s as int]@, w as usize) == count_of(covering@[w]@, s));
                lemma_count_of_contains(covering@[w]@, s);
                assert(!can_switch_off(covering@, active@, redundancy as nat, s));
            }
        }
        if removable {
            let ghost before = active@;
            let ghost counts = cover_count@;
            active.set(s, false);
            let mut j: usize = 0;
            while j < pts.len()
                invariant
                    j <= pts@.len(),
                    pts@ == serves@[s as int]@,
                    all_below(pts@, n as int),
                    s < fleet,
                    n == covering@.len(),
                    in_fleet(covering@, fleet as int),
                    serves@.len() == fleet,
                    serves_matches(serves@, covering@),
                    cover_count@.len() == n,
                    before.len() == fleet,
                    before[s as int],
                    forall|k: int| 0 <= k < n ==> #[trigger] counts[k] == count_lit(covering@[k]@, before),
                    forall|k: int| 0 <= k < n ==> #[trigger] cover_count@[k] + count_of(pts@.take(j as int), k as usize) == counts[k],
                decreases pts@.len() - j,
            {
                let p = pts[j];
                assert(p < n);
                proof {
                    assert forall|k: int| 0 <= k < n implies #[trigger] count_of(pts@.take(j as int + 1), k as usize)
                        == count_of(pts@.take(j as int), k as usize) + if p as int == k { 1nat } else { 0nat } by {
                        lemma_count_of_take(pts@, j as int, k as usize);
                    }
                    lemma_count_of_take_le(pts@, j as int + 1, p);
                    assert(count_of(serves@[s as int]@, p) == count_of(covering@[p as int]@, s));
                    assert(all_below(covering@[p as int]@, fleet as int));
                    lemma_count_lit_ge_count_of(covering@[p as int]@, before, s);
                }
                let v = cover_count[p] - 1;
                cover_count.set(p, v);
                j = j + 1;
            }
            proof {
                assert(pts@.take(j as int) =~= pts@);
                assert forall|k: int| 0 <= k < n implies #[trigger] cover_count@[k] == count_lit(
                    covering@[k]@,
                    active@,
                ) by {
                    assert(all_below(covering@[k]@, fleet as int));
                    lemma_count_lit_switch_off(covering@[k]@, before, s);
                    assert(count_of(serves@[s as int]@, k as usize) == count_of(covering@[k]@, s));
                }
                lemma_count_true_switch(before, s as int, false);
                assert forall|k: int| 0 <= k < idx + 1 && active@[#[trigger] order@[k] as int] implies needed_by_some_point(
                    covering@,
                    active@,
                    redundancy as nat,
                    order@[k],
                ) by {
                    assert(k < idx);
                    let w = choose|w: int|
                        0 <= w < covering@.len() && (#[trigger] covering@[w]@).contains(order@[k]) && count_lit(
                            covering@[w]@,
                            before,
                        ) <= required(covering@[w]@.len(), redundancy as nat);
                    assert(all_below(covering@[w]@, fleet as int));
                    lemma_count_lit_off_le(covering@[w]@, before, s);
                }
                assert forall|k: int| idx + 1 <= k < order@.len() implies active@[#[trigger] order@[k] as int] by {
                    assert(order@[k] != order@[idx as int]);
                }
                if no_repeats(covering@) {
                    assert forall|k: int| 0 <= k < n implies count_lit(#[trigger] covering@[k]@, active@) >= required(
                        covering@[k]@.len(),
                        redundancy as nat,
                    ) by {
                        assert(covering@[k]@.no_duplicates());
                        assert(all_below(covering@[k]@, fleet as int));
                        lemma_count_lit_switch_off(covering@[k]@, before, s);
                        assert(count_of(serves@[s as int]@, k as usize) == count_of(covering@[k]@, s));
                        lemma_count_of_no_dup(covering@[k]@, s);
                        if count_of(covering@[k]@, s) == 1 {
                            assert(count_of(serves@[s as int]@, k as usize) == 1);
                            lemma_count_of_contains(serves@[s as int]@, k as usize);
                            let m = choose|m: int| 0 <= m < pts@.len() && pts@[m] == k as usize;
                            assert(counts[pts@[m] as int] > want@[pts@[m] as int]);
                        }
                    }
                }
            }
        } else {
            proof {
                let m = choose|m: int| 0 <= m < pts@.len() && cover_count@[#[trigger] pts@[m] as int] <= want@[pts@[m] as int];
                let w = pts@[m] as int;
                assert(0 <= w < n);
                lemma_count_of_contains(pts@, w as usize);
                assert(count_of(serves@[s as int]@, w as usize) == count_of(covering@[w]@, s));
                lemma_count_of_contains(covering@[w]@, s);
                assert(needed_by_some_point(covering@, active@, redundancy as nat, s));
            }
        }
        idx = idx + 1;
    }
    proof {
        assert forall|t: int| 0 <= t < active@.len() && #[trigger] active@[t] implies needed_by_some_point(
            covering@,
            active@,
            redundancy as nat,
            t as usize,
        ) by {
            assert(order@.contains(t as usize));
            let k = choose|k: int| 0 <= k < order@.len() && order@[k] == t as usize;
            assert(active@[order@[k] as int]);
        }
    }
}

/// Indices of the points that fewer than `redundancy` satellites can see.
fn unservable_of(covering: &[Vec<usize>], redundancy: usize) -> (u: Vec<usize>)
    ensures
        u@ == unservable_points(covering@, redundancy as nat),
{
    let mut u: Vec<usize> = Vec::new();
    let mut p: usize = 0;
    while p < covering.len()
        invariant
            p <= covering@.len(),
            u@ == unservable_upto(covering@, redundancy as nat, p as int),
        decreases covering@.len() - p,
    {
        if covering[p].len() < redundancy {
            u.push(p);
        }
        p = p + 1;
    }
    u
}

pub(crate) fn dark_fleet(fleet: usize) -> (active: Vec<bool>)
    ensures
        active@.len() == fleet,
        forall|s: int| 0 <= s < fleet ==> !#[trigger] active@[s],
{
    let mut active: Vec<bool> = Vec::new();
    let mut s: usize = 0;
    while s < fleet
        invariant
            s <= fleet,
            active@.len() == s,
            forall|t: int| 0 <= t < s ==> !#[trigger] active@[t],
        decreases fleet - s,
    {
        active.push(false);
        s = s + 1;
    }
    active
}

/// A fleet of `n` satellites, all dark.
pub open spec fn all_dark(n: nat) -> Seq<bool> {
    Seq::new(n, |i: int| false)
}

/// Smallest set of satellites (greedily chosen) giving every point at least
/// `redundancy` servers, preferring satellites lit in `previous` on ties.
///
/// Greedy lights, one at a time, the dark satellite serving the most points
/// still short of their requirement; a pruning pass then switches off every
/// satellite whose points all keep their requirement without it, shedding the
/// ones dark in `previous` first so the plan stays sticky. Points that the
/// entire fleet cannot serve to `redundancy` are reported in
/// [`ActivationPlan::unservable`] and otherwise covered as far as possible.
pub fn select_active(
    covering: &[Vec<usize>],
    fleet: usize,
    redundancy: usize,
    previous: Option<&[bool]>,
) -> (plan: ActivationPlan)
    requires
        in_fleet(covering@, fleet as int),
    ensures
        plan.active@.len() == fleet,
        plan.lit == count_true(plan.active@),
        plan.unservable@ == unservable_points(covering@, redundancy as nat),
        irredundant(covering@, plan.active@, redundancy as nat),
        no_repeats(covering@) ==> covers(covering@, plan.active@, redundancy as nat),
        plan.active@ == pruned(
            covering@,
            greedy_from(covering@, fleet as int, all_dark(fleet as nat), redundancy as nat, previous),
            redundancy as nat,
            previous,
        ),
{
    let unservable = unservable_of(covering, redundancy);
    let mut active = dark_fleet(fleet);
    assert(active@ =~= all_dark(fleet as nat));
    let serves = build_serves(covering, fleet);
    greedy_fill(covering, &serves, fleet, redundancy, previous, &mut active);
    prune_redundant(covering, &serves, fleet, redundancy, previous, &mut active);
    let lit = count_true_exec(&active);
    ActivationPlan { active, lit, unservable }
}

/// The shape of a polar wheel: how many rings, and how many satellites in
/// each.
#[derive(Debug, Clone, Copy, PartialEq, Eq)]
pub struct WheelShape {
    pub planes: usize,
    pub sats_per_plane: usize,
}

/// A satellite's position in the wheel, flattened to a single index.
pub fn satellite_index(c: &WheelShape, plane: usize, slot: usize) -> (i: usize)
    requires
        plane * c.sats_per_plane + slot <= usize::MAX,
    ensures
        i == plane * c.sats_per_plane + slot,
{
    plane * c.sats_per_plane + slot
}

/// Total satellites in the wheel.
pub fn fleet_size(c: &WheelShape) -> (n: usize)
    requires
        c.planes * c.sats_per_plane <= usize::MAX,
    ensures
        n == c.planes * c.sats_per_plane,
{
    c.planes * c.sats_per_plane
}

/// The duty ring `duty` lit as a block, every other satellite dark.
pub open spec fn duty_lit(c: WheelShape, duty: int) -> Seq<bool> {
    Seq::new(
        (c.planes * c.sats_per_plane) as nat,
        |i: int| duty * c.sats_per_plane <= i < (duty + 1) * c.sats_per_plane,
    )
}

/// The duty-first plan: greedy patching of the holes the lit duty ring
/// leaves, then, with `prune`, the pruning pass.
pub open spec fn duty_plan(
    covering: Seq<Vec<usize>>,
    c: WheelShape,
    duty: int,
    previous: Option<&[bool]>,
    prune: bool,
) -> Seq<bool> {
    let loose = greedy_from(covering, c.planes * c.sats_per_plane, duty_lit(c, duty), 1, previous);
    if prune {
        pruned(covering, loose, 1, previous)
    } else {
        loose
    }
}

/// Pruning never costs the duty-first plan a satellite: the pruned plan
/// lights only satellites the unpruned one lights, so never more of them.
pub proof fn lemma_duty_pruning_never_lights_more(
    covering: Seq<Vec<usize>>,
    c: WheelShape,
    duty: int,
    previous: Option<&[bool]>,
)
    ensures
        forall|s: int|
            0 <= s < duty_plan(covering, c, duty, previous, false).len() && #[trigger] duty_plan(
                covering,
                c,
                duty,
                previous,
                true,
            )[s] ==> duty_plan(covering, c, duty, previous, false)[s],
        count_true(duty_plan(covering, c, duty, previous, true)) <= count_true(
            duty_plan(covering, c, duty, previous, false),
        ),
{
    let loose = duty_plan(covering, c, duty, previous, false);
    lemma_pruning_never_lights_more(covering, loose, 1, previous);
}

/// Light the duty ring, then patch whatever holes remain.
///
/// The ring nearest the terminator is switched on as a block, and satellites
/// from other rings are added one at a time only where the band is still
/// unserved. With `prune`, satellites contributing nothing are switched back
/// off afterwards, those dark in `previous` first.
pub fn duty_first_activation(
    covering: &[Vec<usize>],
    c: &WheelShape,
    duty: usize,
    previous: Option<&[bool]>,
    prune: bool,
) -> (plan: ActivationPlan)
    requires
        c.planes * c.sats_per_plane <= usize::MAX,
        c.sats_per_plane == 0 || duty < c.planes,
        in_fleet(covering@, c.planes * c.sats_per_plane),
    ensures
        plan.active@.len() == c.planes * c.sats_per_plane,
        plan.lit == count_true(plan.active@),
        plan.unservable@ == unservable_points(covering@, 1),
        !prune ==> forall|j: int| 0 <= j < c.sats_per_plane ==> #[trigger] plan.active@[duty * c.sats_per_plane + j],
        !prune ==> covers(covering@, plan.active@, 1),
        prune ==> irredundant(covering@, plan.active@, 1),
        prune && no_repeats(covering@) ==> covers(covering@, plan.active@, 1),
        plan.active@ == duty_plan(covering@, *c, duty as int, previous, prune),
{
    let fleet = fleet_size(c);
    let spp = c.sats_per_plane;
    let mut active = dark_fleet(fleet);
    let mut j: usize = 0;
    while j < spp
        invariant
            j <= spp,
            spp == c.sats_per_plane,
            fleet == c.planes * c.sats_per_plane,
            spp == 0 || duty < c.planes,
            active@.len() == fleet,
            forall|k: int| 0 <= k < j ==> #[trigger] active@[duty * spp + k],
            forall|i: int| 0 <= i < fleet ==> #[trigger] active@[i] == (duty * spp <= i < duty * spp + j),
        decreases spp - j,
    {
        proof {
            assert(duty * spp + spp <= c.planes * spp) by (nonlinear_arith)
                requires
                    duty < c.planes,
            ;
        }
        let i = satellite_index(c, duty, j);
        active.set(i, true);
        j = j + 1;
    }
    let serves = build_serves(covering, fleet);
    let unservable = unservable_of(covering, 1);
    let ghost duty_lit = active@;
    assert((duty + 1) * spp == duty * spp + spp) by (nonlinear_arith);
    assert(duty_lit =~= crate::activation::duty_lit(*c, duty as int));
    // Patch the holes the duty ring leaves.
    greedy_fill(covering, &serves, fleet, 1, previous, &mut active);
    if prune {
        prune_redundant(covering, &serves, fleet, 1, previous, &mut active);
    } else {
        assert forall|k: int| 0 <= k < spp implies #[trigger] active@[duty * spp + k] by {
            assert(duty_lit[duty * spp + k]);
            assert(duty * spp + k < fleet) by (nonlinear_arith)
                requires
                    duty < c.planes,
                    0 <= k < spp,
                    fleet == c.planes * spp,
            ;
        }
    }
    let lit = count_true_exec(&active);
    ActivationPlan { active, lit, unservable }
}

} // verus!
