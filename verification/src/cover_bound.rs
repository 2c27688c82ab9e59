//! A lower bound on any activation set, computed independently of the
//! planners: points no two of which share a serving satellite each need
//! satellites of their own.

use vstd::prelude::*;
use crate::tally::{
    all_below, count_lit, count_of, count_true, lemma_count_lit_switch_off, lemma_count_lit_witness, lemma_count_lit_lit_entry,
    lemma_count_of_contains, lemma_count_of_no_dup, lemma_count_true_switch,
};
use crate::activation::{covers, in_fleet, no_repeats, required};
use crate::order::{ascending, key_leq, stable_sort_by_key};
use vstd::relations::total_ordering;
use vstd::seq_lib::lemma_sorted_unique;

verus! {

/// Two lists name a common satellite.
pub open spec fn shares(a: Seq<usize>, b: Seq<usize>) -> bool {
    exists|s: usize| a.contains(s) && b.contains(s)
}

/// `mask` picks non-empty points no two of which share a satellite.
pub open spec fn disjoint_family(covering: Seq<Vec<usize>>, mask: Seq<bool>) -> bool {
    &&& mask.len() == covering.len()
    &&& forall|p: int| 0 <= p < mask.len() && #[trigger] mask[p] ==> covering[p]@.len() > 0
    &&& forall|p: int, q: int|
        0 <= p < mask.len() && 0 <= q < mask.len() && p != q && #[trigger] mask[p] && #[trigger] mask[q]
            ==> !shares(covering[p]@, covering[q]@)
}

/// No further point could join the family: every non-empty point left out
/// shares a satellite with a point in it.
pub open spec fn maximal_family(covering: Seq<Vec<usize>>, mask: Seq<bool>) -> bool {
    forall|p: int|
        0 <= p < mask.len() && !#[trigger] mask[p] && covering[p]@.len() > 0 ==> exists|q: int|
            0 <= q < mask.len() && mask[q] && shares(covering[p]@, covering[q]@)
}

/// Sum of the requirements of the first `n` points that `mask` picks.
pub open spec fn masked_required(
    covering: Seq<Vec<usize>>,
    redundancy: nat,
    mask: Seq<bool>,
    n: int,
) -> nat
    decreases n,
{
    if n <= 0 {
        0
    } else {
        masked_required(covering, redundancy, mask, n - 1) + if mask[n - 1] {
            required(covering[n - 1]@.len(), redundancy)
        } else {
            0
        }
    }
}

/// Sum of the requirements of the first `n` points.
pub open spec fn total_required(covering: Seq<Vec<usize>>, redundancy: nat, n: int) -> nat
    decreases n,
{
    if n <= 0 {
        0
    } else {
        total_required(covering, redundancy, n - 1) + required(covering[n - 1]@.len(), redundancy)
    }
}

/// Lit entries summed over the picked points among the first `n`.
pub open spec fn masked_lit(covering: Seq<Vec<usize>>, active: Seq<bool>, mask: Seq<bool>, n: int) -> nat
    decreases n,
{
    if n <= 0 {
        0
    } else {
        masked_lit(covering, active, mask, n - 1) + if mask[n - 1] {
            count_lit(covering[n - 1]@, active)
        } else {
            0
        }
    }
}

/// Listings of satellite `s` summed over the picked points among the first `n`.
pub open spec fn masked_count_of(covering: Seq<Vec<usize>>, s: usize, mask: Seq<bool>, n: int) -> nat
    decreases n,
{
    if n <= 0 {
        0
    } else {
        masked_count_of(covering, s, mask, n - 1) + if mask[n - 1] {
            count_of(covering[n - 1]@, s)
        } else {
            0
        }
    }
}

proof fn lemma_masked_required_pick(covering: Seq<Vec<usize>>, redundancy: nat, mask: Seq<bool>, p: int, n: int)
    requires
        0 <= p < mask.len(),
        !mask[p],
        0 <= n <= mask.len(),
    ensures
        masked_required(covering, redundancy, mask.update(p, true), n) == masked_required(
            covering,
            redundancy,
            mask,
            n,
        ) + if p < n {
            required(covering[p]@.len(), redundancy)
        } else {
            0
        },
    decreases n,
{
    if n > 0 {
        lemma_masked_required_pick(covering, redundancy, mask, p, n - 1);
    }
}

proof fn lemma_masked_required_none(covering: Seq<Vec<usize>>, redundancy: nat, mask: Seq<bool>, n: int)
    requires
        0 <= n <= mask.len(),
        forall|p: int| 0 <= p < mask.len() ==> !#[trigger] mask[p],
    ensures
        masked_required(covering, redundancy, mask, n) == 0,
    decreases n,
{
    if n > 0 {
        lemma_masked_required_none(covering, redundancy, mask, n - 1);
    }
}

proof fn lemma_masked_required_le_total(covering: Seq<Vec<usize>>, redundancy: nat, mask: Seq<bool>, n: int)
    requires
        0 <= n <= mask.len(),
    ensures
        masked_required(covering, redundancy, mask, n) <= total_required(covering, redundancy, n),
    decreases n,
{
    if n > 0 {
        lemma_masked_required_le_total(covering, redundancy, mask, n - 1);
    }
}

proof fn lemma_masked_required_le_lit(
    covering: Seq<Vec<usize>>,
    redundancy: nat,
    active: Seq<bool>,
    mask: Seq<bool>,
    n: int,
)
    requires
        0 <= n <= mask.len(),
        mask.len() == covering.len(),
        covers(covering, active, redundancy),
    ensures
        masked_required(covering, redundancy, mask, n) <= masked_lit(covering, active, mask, n),
    decreases n,
{
    if n > 0 {
        lemma_masked_required_le_lit(covering, redundancy, active, mask, n - 1);
        assert(count_lit(covering[n - 1]@, active) >= required(covering[n - 1]@.len(), redundancy));
    }
}

proof fn lemma_masked_lit_switch_off(covering: Seq<Vec<usize>>, active: Seq<bool>, mask: Seq<bool>, s: usize, n: int)
    requires
        0 <= n <= covering.len(),
        in_fleet(covering, active.len() as int),
        s < active.len(),
        active[s as int],
    ensures
        masked_lit(covering, active.update(s as int, false), mask, n) + masked_count_of(covering, s, mask, n)
            == masked_lit(covering, active, mask, n),
    decreases n,
{
    if n > 0 {
        lemma_masked_lit_switch_off(covering, active, mask, s, n - 1);
        assert(all_below(covering[n - 1]@, active.len() as int));
        lemma_count_lit_switch_off(covering[n - 1]@, active, s);
    }
}

proof fn lemma_masked_count_of_at_most_one(covering: Seq<Vec<usize>>, s: usize, mask: Seq<bool>, n: int)
    requires
        0 <= n <= covering.len(),
        disjoint_family(covering, mask),
        no_repeats(covering),
    ensures
        masked_count_of(covering, s, mask, n) <= 1,
        masked_count_of(covering, s, mask, n) == 1 ==> exists|p: int|
            0 <= p < n && mask[p] && covering[p]@.contains(s),
    decreases n,
{
    if n > 0 {
        lemma_masked_count_of_at_most_one(covering, s, mask, n - 1);
        let last = n - 1;
        assert(covering[last]@.no_duplicates());
        lemma_count_of_no_dup(covering[last]@, s);
        lemma_count_of_contains(covering[last]@, s);
        if mask[last] && count_of(covering[last]@, s) == 1 && masked_count_of(covering, s, mask, n - 1) == 1 {
            let p = choose|p: int| 0 <= p < n - 1 && mask[p] && covering[p]@.contains(s);
            assert(shares(covering[p]@, covering[last]@));
        }
    }
}

proof fn lemma_masked_lit_all_dark(covering: Seq<Vec<usize>>, active: Seq<bool>, mask: Seq<bool>, n: int)
    requires
        0 <= n <= covering.len(),
        in_fleet(covering, active.len() as int),
        forall|s: int| 0 <= s < active.len() && s <= usize::MAX ==> !#[trigger] active[s],
    ensures
        masked_lit(covering, active, mask, n) == 0,
    decreases n,
{
    if n > 0 {
        lemma_masked_lit_all_dark(covering, active, mask, n - 1);
        if count_lit(covering[n - 1]@, active) > 0 {
            let i = lemma_count_lit_witness(covering[n - 1]@, active);
            assert(all_below(covering[n - 1]@, active.len() as int));
            assert(covering[n - 1]@[i] < active.len());
        }
    }
}

proof fn lemma_masked_lit_le_count_true(covering: Seq<Vec<usize>>, active: Seq<bool>, mask: Seq<bool>)
    requires
        disjoint_family(covering, mask),
        no_repeats(covering),
        in_fleet(covering, active.len() as int),
    ensures
        masked_lit(covering, active, mask, covering.len() as int) <= count_true(active),
    decreases count_true(active),
{
    let n = covering.len() as int;
    if exists|s: int| 0 <= s < active.len() && s <= usize::MAX && #[trigger] active[s] {
        let s = choose|s: int| 0 <= s < active.len() && s <= usize::MAX && #[trigger] active[s];
        let off = active.update(s, false);
        lemma_count_true_switch(active, s, false);
        lemma_masked_lit_switch_off(covering, active, mask, s as usize, n);
        lemma_masked_count_of_at_most_one(covering, s as usize, mask, n);
        lemma_masked_lit_le_count_true(covering, off, mask);
    } else {
        lemma_masked_lit_all_dark(covering, active, mask, n);
    }
}

/// Picked points among the first `n` that have a lit server.
pub open spec fn masked_hit(covering: Seq<Vec<usize>>, active: Seq<bool>, mask: Seq<bool>, n: int) -> nat
    decreases n,
{
    if n <= 0 {
        0
    } else {
        masked_hit(covering, active, mask, n - 1) + if mask[n - 1] && count_lit(covering[n - 1]@, active) > 0 {
            1nat
        } else {
            0nat
        }
    }
}

/// Picked points among the first `n` that list satellite `s`.
pub open spec fn masked_listing(covering: Seq<Vec<usize>>, s: usize, mask: Seq<bool>, n: int) -> nat
    decreases n,
{
    if n <= 0 {
        0
    } else {
        masked_listing(covering, s, mask, n - 1) + if mask[n - 1] && covering[n - 1]@.contains(s) {
            1nat
        } else {
            0nat
        }
    }
}

proof fn lemma_masked_required_le_hit(
    covering: Seq<Vec<usize>>,
    redundancy: nat,
    active: Seq<bool>,
    mask: Seq<bool>,
    n: int,
)
    requires
        0 <= n <= mask.len(),
        mask.len() == covering.len(),
        redundancy <= 1,
        covers(covering, active, redundancy),
    ensures
        masked_required(covering, redundancy, mask, n) <= masked_hit(covering, active, mask, n),
    decreases n,
{
    if n > 0 {
        lemma_masked_required_le_hit(covering, redundancy, active, mask, n - 1);
        assert(count_lit(covering[n - 1]@, active) >= required(covering[n - 1]@.len(), redundancy));
    }
}

proof fn lemma_masked_listing_at_most_one(covering: Seq<Vec<usize>>, s: usize, mask: Seq<bool>, n: int)
    requires
        0 <= n <= covering.len(),
        disjoint_family(covering, mask),
    ensures
        masked_listing(covering, s, mask, n) <= 1,
        masked_listing(covering, s, mask, n) == 1 ==> exists|p: int|
            0 <= p < n && mask[p] && covering[p]@.contains(s),
    decreases n,
{
    if n > 0 {
        lemma_masked_listing_at_most_one(covering, s, mask, n - 1);
        let last = n - 1;
        if mask[last] && covering[last]@.contains(s) && masked_listing(covering, s, mask, n - 1) == 1 {
            let p = choose|p: int| 0 <= p < n - 1 && mask[p] && covering[p]@.contains(s);
            assert(shares(covering[p]@, covering[last]@));
        }
    }
}

proof fn lemma_masked_hit_switch_off(covering: Seq<Vec<usize>>, active: Seq<bool>, mask: Seq<bool>, s: usize, n: int)
    requires
        0 <= n <= covering.len(),
        in_fleet(covering, active.len() as int),
        s < active.len(),
    ensures
        masked_hit(covering, active, mask, n) <= masked_hit(covering, active.update(s as int, false), mask, n)
            + masked_listing(covering, s, mask, n),
    decreases n,
{
    if n > 0 {
        lemma_masked_hit_switch_off(covering, active, mask, s, n - 1);
        let row = covering[n - 1]@;
        let off = active.update(s as int, false);
        if count_lit(row, active) > 0 && !row.contains(s) {
            let i = lemma_count_lit_witness(row, active);
            assert(all_below(row, active.len() as int));
            assert(row[i] != s);
            lemma_count_lit_lit_entry(row, off, i);
        }
    }
}

proof fn lemma_masked_hit_all_dark(covering: Seq<Vec<usize>>, active: Seq<bool>, mask: Seq<bool>, n: int)
    requires
        0 <= n <= covering.len(),
        in_fleet(covering, active.len() as int),
        forall|s: int| 0 <= s < active.len() && s <= usize::MAX ==> !#[trigger] active[s],
    ensures
        masked_hit(covering, active, mask, n) == 0,
    decreases n,
{
    if n > 0 {
        lemma_masked_hit_all_dark(covering, active, mask, n - 1);
        if count_lit(covering[n - 1]@, active) > 0 {
            let i = lemma_count_lit_witness(covering[n - 1]@, active);
            assert(all_below(covering[n - 1]@, active.len() as int));
            assert(covering[n - 1]@[i] < active.len());
        }
    }
}

proof fn lemma_masked_hit_le_count_true(covering: Seq<Vec<usize>>, active: Seq<bool>, mask: Seq<bool>)
    requires
        disjoint_family(covering, mask),
        in_fleet(covering, active.len() as int),
    ensures
        masked_hit(covering, active, mask, covering.len() as int) <= count_true(active),
    decreases count_true(active),
{
    let n = covering.len() as int;
    if exists|s: int| 0 <= s < active.len() && s <= usize::MAX && #[trigger] active[s] {
        let s = choose|s: int| 0 <= s < active.len() && s <= usize::MAX && #[trigger] active[s];
        let off = active.update(s, false);
        lemma_count_true_switch(active, s, false);
        lemma_masked_hit_switch_off(covering, active, mask, s as usize, n);
        lemma_masked_listing_at_most_one(covering, s as usize, mask, n);
        lemma_masked_hit_le_count_true(covering, off, mask);
    } else {
        lemma_masked_hit_all_dark(covering, active, mask, n);
    }
}

/// Any plan that serves every point at `redundancy` lights at least as many
/// satellites as a disjoint family of points requires between them, when no
/// point lists a satellite twice or at most one server per point is asked
/// for.
pub proof fn lemma_family_bounds_every_cover(
    covering: Seq<Vec<usize>>,
    redundancy: nat,
    mask: Seq<bool>,
    active: Seq<bool>,
)
    requires
        disjoint_family(covering, mask),
        no_repeats(covering) || redundancy <= 1,
        in_fleet(covering, active.len() as int),
        covers(covering, active, redundancy),
    ensures
        masked_required(covering, redundancy, mask, covering.len() as int) <= count_true(active),
{
    if no_repeats(covering) {
        lemma_masked_required_le_lit(covering, redundancy, active, mask, covering.len() as int);
        lemma_masked_lit_le_count_true(covering, active, mask);
    } else {
        lemma_masked_required_le_hit(covering, redundancy, active, mask, covering.len() as int);
        lemma_masked_hit_le_count_true(covering, active, mask);
    }
}

/// With a redundancy of at most one, the requirements add up to at most the
/// number of points.
pub proof fn lemma_total_required_single(covering: Seq<Vec<usize>>, redundancy: nat, n: int)
    requires
        redundancy <= 1,
        0 <= n,
    ensures
        total_required(covering, redundancy, n) <= n,
    decreases n,
{
    if n > 0 {
        lemma_total_required_single(covering, redundancy, n - 1);
    }
}

/// Points with fewer servers first, the lower-numbered among equals.
pub open spec fn fewer_servers_first(covering: Seq<Vec<usize>>) -> spec_fn(usize, usize) -> bool {
    |a: usize, b: usize|
        covering[a as int]@.len() < covering[b as int]@.len() || (covering[a as int]@.len()
            == covering[b as int]@.len() && a <= b)
}

/// The order the bound considers points in: most constrained first.
pub open spec fn bound_order(covering: Seq<Vec<usize>>) -> Seq<usize> {
    Seq::new(covering.len(), |i: int| i as usize).sort_by(fewer_servers_first(covering))
}

/// The family after considering `order[0..k]` in turn, taking each
/// non-empty point that shares no satellite with a point already taken.
pub open spec fn family_upto(covering: Seq<Vec<usize>>, order: Seq<usize>, k: int) -> Seq<bool>
    decreases k,
{
    if k <= 0 {
        Seq::new(covering.len(), |i: int| false)
    } else {
        let m = family_upto(covering, order, k - 1);
        let p = order[k - 1] as int;
        if covering[p]@.len() > 0 && !(exists|q: int|
            0 <= q < m.len() && #[trigger] m[q] && shares(covering[p]@, covering[q]@)) {
            m.update(p, true)
        } else {
            m
        }
    }
}

/// The family the bound is taken over: points considered most constrained
/// first, each taken unless it shares a satellite with one already taken.
pub open spec fn bound_family(covering: Seq<Vec<usize>>) -> Seq<bool> {
    family_upto(covering, bound_order(covering), covering.len() as int)
}

proof fn lemma_family_len(covering: Seq<Vec<usize>>, order: Seq<usize>, k: int)
    requires
        0 <= k <= order.len(),
        forall|i: int| 0 <= i < order.len() ==> #[trigger] order[i] < covering.len(),
    ensures
        family_upto(covering, order, k).len() == covering.len(),
    decreases k,
{
    if k > 0 {
        lemma_family_len(covering, order, k - 1);
    }
}

/// The family only ever grows as more points are considered.
proof fn lemma_family_grows(covering: Seq<Vec<usize>>, order: Seq<usize>, k: int, k2: int)
    requires
        0 <= k <= k2,
        forall|i: int| 0 <= i < order.len() ==> #[trigger] order[i] < covering.len(),
        k2 <= order.len(),
    ensures
        family_upto(covering, order, k).len() == covering.len(),
        family_upto(covering, order, k2).len() == covering.len(),
        forall|p: int|
            0 <= p < covering.len() && #[trigger] family_upto(covering, order, k)[p] ==> family_upto(
                covering,
                order,
                k2,
            )[p],
    decreases k2,
{
    lemma_family_len(covering, order, k);
    lemma_family_len(covering, order, k2);
    if k < k2 {
        lemma_family_grows(covering, order, k, k2 - 1);
        lemma_family_len(covering, order, k2 - 1);
    }
}

/// A bigger family asks for at least as much.
proof fn lemma_masked_required_mono(covering: Seq<Vec<usize>>, redundancy: nat, a: Seq<bool>, b: Seq<bool>, n: int)
    requires
        0 <= n <= a.len(),
        a.len() == b.len(),
        forall|p: int| 0 <= p < a.len() && #[trigger] a[p] ==> b[p],
    ensures
        masked_required(covering, redundancy, a, n) <= masked_required(covering, redundancy, b, n),
    decreases n,
{
    if n > 0 {
        lemma_masked_required_mono(covering, redundancy, a, b, n - 1);
    }
}

/// The bound never asks for more than every point together.
pub proof fn lemma_bound_within_total(covering: Seq<Vec<usize>>, redundancy: nat)
    ensures
        masked_required(covering, redundancy, bound_family(covering), covering.len() as int) <= total_required(
            covering,
            redundancy,
            covering.len() as int,
        ),
{
    let order = bound_order(covering);
    let all = Seq::new(covering.len(), |i: int| i as usize);
    lemma_fewer_servers_first_total(covering);
    all.lemma_sort_by_ensures(fewer_servers_first(covering));
    assert forall|i: int| 0 <= i < order.len() implies #[trigger] order[i] < covering.len() by {
        assert(order.contains(order[i]));
        assert(all.contains(order[i]));
        let j = choose|j: int| 0 <= j < all.len() && all[j] == order[i];
        assert(all[j] == j as usize);
    }
    lemma_order_len(covering);
    lemma_family_grows(covering, order, 0, covering.len() as int);
    lemma_masked_required_le_total(covering, redundancy, bound_family(covering), covering.len() as int);
}

/// The bound considers every point exactly once, the most constrained first:
/// along the order the number of servers never falls, and among points with
/// as many servers the lower-numbered comes first.
pub proof fn lemma_bound_order_fewest_first(covering: Seq<Vec<usize>>)
    requires
        covering.len() <= usize::MAX,
    ensures
        bound_order(covering).len() == covering.len(),
        bound_order(covering).no_duplicates(),
        forall|p: usize| #[trigger] bound_order(covering).contains(p) <==> p < covering.len(),
        forall|i: int, j: int|
            0 <= i < j < covering.len() ==> covering[#[trigger] bound_order(covering)[i] as int]@.len()
                <= covering[#[trigger] bound_order(covering)[j] as int]@.len(),
        forall|i: int, j: int|
            0 <= i < j < covering.len() && covering[#[trigger] bound_order(covering)[i] as int]@.len()
                == covering[#[trigger] bound_order(covering)[j] as int]@.len() ==> bound_order(covering)[i]
                < bound_order(covering)[j],
{
    broadcast use vstd::seq_lib::group_to_multiset_ensures;
    let order = bound_order(covering);
    let all = Seq::new(covering.len(), |i: int| i as usize);
    let leq = fewer_servers_first(covering);
    lemma_fewer_servers_first_total(covering);
    all.lemma_sort_by_ensures(leq);
    lemma_order_len(covering);
    assert forall|p: usize| #[trigger] order.contains(p) <==> p < covering.len() by {
        if order.contains(p) {
            if !all.contains(p) {
                assert(!order.contains(p));
            }
            let j = choose|j: int| 0 <= j < all.len() && all[j] == p;
            assert(all[j] == j as usize);
        }
        if p < covering.len() {
            assert(all[p as int] == p);
            assert(all.to_multiset().count(p) > 0);
            assert(order.to_multiset().count(p) > 0);
        }
    }
    assert forall|i: int, j: int| 0 <= i < j < covering.len() implies leq(order[i], order[j]) by {}
    assert forall|i: int, j: int| 0 <= i < all.len() && 0 <= j < all.len() && i != j implies all[i] != all[j] by {
        assert(all[i] == i as usize && all[j] == j as usize);
    }
    assert(all.no_duplicates());
    assert forall|i: int, j: int| 0 <= i < order.len() && 0 <= j < order.len() && i != j implies order[i]
        != order[j] by {
        if order[i] == order[j] {
            let (a, b) = if i < j { (i, j) } else { (j, i) };
            assert(leq(order[a], order[b]));
            // Two places hold the same point: it would occur twice in the order.
            lemma_count_twice(order, a, b);
            assert(all.to_multiset().count(order[a]) <= 1) by {
                lemma_no_dup_count(all, order[a]);
            }
        }
    }
}

/// Every non-empty point left out of `mask` shares a satellite with a point in
/// it that has no more servers: the family takes the most constrained first.
pub open spec fn most_constrained_first(covering: Seq<Vec<usize>>, mask: Seq<bool>) -> bool {
    forall|p: int|
        0 <= p < mask.len() && !#[trigger] mask[p] && covering[p]@.len() > 0 ==> exists|q: int|
            0 <= q < mask.len() && mask[q] && shares(covering[p]@, covering[q]@) && covering[q]@.len()
                <= covering[p]@.len()
}

proof fn lemma_family_upto_constrained(covering: Seq<Vec<usize>>, k: int)
    requires
        covering.len() <= usize::MAX,
        0 <= k <= covering.len(),
    ensures
        family_upto(covering, bound_order(covering), k).len() == covering.len(),
        forall|q: int|
            0 <= q < covering.len() && #[trigger] family_upto(covering, bound_order(covering), k)[q] ==> exists|j: int|
                0 <= j < k && bound_order(covering)[j] as int == q,
        forall|j: int|
            0 <= j < k && !family_upto(covering, bound_order(covering), k)[#[trigger] bound_order(covering)[j] as int]
                && covering[bound_order(covering)[j] as int]@.len() > 0 ==> exists|q: int|
                0 <= q < covering.len() && family_upto(covering, bound_order(covering), k)[q] && shares(
                    covering[bound_order(covering)[j] as int]@,
                    covering[q]@,
                ) && covering[q]@.len() <= covering[bound_order(covering)[j] as int]@.len(),
    decreases k,
{
    let order = bound_order(covering);
    lemma_bound_order_fewest_first(covering);
    assert forall|i: int| 0 <= i < order.len() implies #[trigger] order[i] < covering.len() by {
        assert(order.contains(order[i]));
    }
    lemma_family_len(covering, order, k);
    if k > 0 {
        lemma_family_upto_constrained(covering, k - 1);
        lemma_family_len(covering, order, k - 1);
        let m = family_upto(covering, order, k - 1);
        let m2 = family_upto(covering, order, k);
        let p = order[k - 1] as int;
        assert forall|q: int| 0 <= q < covering.len() && #[trigger] m2[q] implies exists|j: int|
            0 <= j < k && order[j] as int == q by {
            if q != p {
                assert(m[q]);
                let j = choose|j: int| 0 <= j < k - 1 && order[j] as int == q;
                assert(0 <= j < k && order[j] as int == q);
            } else {
                assert(order[k - 1] as int == q);
            }
        }
        assert forall|j: int|
            0 <= j < k && !m2[#[trigger] order[j] as int] && covering[order[j] as int]@.len() > 0 implies exists|q: int|
                0 <= q < covering.len() && m2[q] && shares(covering[order[j] as int]@, covering[q]@)
                    && covering[q]@.len() <= covering[order[j] as int]@.len() by {
            if j < k - 1 {
                assert(!m[order[j] as int]) by {
                    if m[order[j] as int] {
                        assert(m2[order[j] as int]);
                    }
                }
                let q = choose|q: int|
                    0 <= q < covering.len() && m[q] && shares(covering[order[j] as int]@, covering[q]@)
                        && covering[q]@.len() <= covering[order[j] as int]@.len();
                assert(m2[q]);
            } else {
                assert(m2 == m);
                let q = choose|q: int| 0 <= q < m.len() && #[trigger] m[q] && shares(covering[p]@, covering[q]@);
                let jq = choose|jq: int| 0 <= jq < k - 1 && order[jq] as int == q;
                assert(covering[order[jq] as int]@.len() <= covering[order[k - 1] as int]@.len());
            }
        }
    }
}

/// The bound's family takes the most constrained points first.
pub proof fn lemma_bound_family_constrained_first(covering: Seq<Vec<usize>>)
    requires
        covering.len() <= usize::MAX,
    ensures
        most_constrained_first(covering, bound_family(covering)),
{
    let n = covering.len() as int;
    let order = bound_order(covering);
    lemma_family_upto_constrained(covering, n);
    lemma_bound_order_fewest_first(covering);
    let m = bound_family(covering);
    assert forall|p: int| 0 <= p < m.len() && !#[trigger] m[p] && covering[p]@.len() > 0 implies exists|q: int|
        0 <= q < m.len() && m[q] && shares(covering[p]@, covering[q]@) && covering[q]@.len()
            <= covering[p]@.len() by {
        assert(order.contains(p as usize));
        let j = choose|j: int| 0 <= j < order.len() && order[j] == p as usize;
        assert(!m[order[j] as int]);
    }
}

proof fn lemma_count_twice(s: Seq<usize>, a: int, b: int)
    requires
        0 <= a < b < s.len(),
        s[a] == s[b],
    ensures
        s.to_multiset().count(s[a]) >= 2,
    decreases s.len(),
{
    broadcast use vstd::seq_lib::group_to_multiset_ensures;
    let x = s[a];
    let rest = s.drop_last();
    assert(s =~= rest.push(s.last()));
    if b < s.len() - 1 {
        lemma_count_twice(rest, a, b);
    } else {
        assert(rest[a] == x);
        assert(rest.contains(x));
    }
}

proof fn lemma_no_dup_count(s: Seq<usize>, x: usize)
    requires
        s.no_duplicates(),
    ensures
        s.to_multiset().count(x) <= 1,
    decreases s.len(),
{
    broadcast use vstd::seq_lib::group_to_multiset_ensures;
    if s.len() > 0 {
        let rest = s.drop_last();
        assert(s =~= rest.push(s.last()));
        lemma_no_dup_count(rest, x);
        if s.last() == x {
            assert(!rest.contains(x)) by {
                if rest.contains(x) {
                    let k = choose|k: int| 0 <= k < rest.len() && rest[k] == x;
                    assert(s[k] == s[s.len() - 1]);
                }
            }
        }
    }
}

proof fn lemma_fewer_servers_first_total(covering: Seq<Vec<usize>>)
    ensures
        total_ordering(fewer_servers_first(covering)),
{
}

proof fn lemma_order_len(covering: Seq<Vec<usize>>)
    ensures
        bound_order(covering).len() == covering.len(),
{
    broadcast use vstd::seq_lib::group_to_multiset_ensures;
    let all = Seq::new(covering.len(), |i: int| i as usize);
    lemma_fewer_servers_first_total(covering);
    all.lemma_sort_by_ensures(fewer_servers_first(covering));
    assert(all.to_multiset().len() == all.sort_by(fewer_servers_first(covering)).to_multiset().len());
}

/// Two lists of points name the same servers, point by point.
pub open spec fn same_views(a: Seq<Vec<usize>>, b: Seq<Vec<usize>>) -> bool {
    &&& a.len() == b.len()
    &&& forall|i: int| #![trigger a[i]] #![trigger b[i]] 0 <= i < a.len() ==> a[i]@ == b[i]@
}

/// The bound at a redundancy of one.
pub open spec fn single_bound(covering: Seq<Vec<usize>>) -> nat {
    masked_required(covering, 1, bound_family(covering), covering.len() as int)
}

proof fn lemma_bound_order_views(a: Seq<Vec<usize>>, b: Seq<Vec<usize>>)
    requires
        same_views(a, b),
    ensures
        bound_order(a) == bound_order(b),
        forall|i: int| 0 <= i < bound_order(a).len() ==> #[trigger] bound_order(a)[i] < a.len(),
{
    let all = Seq::new(a.len(), |i: int| i as usize);
    let la = fewer_servers_first(a);
    let lb = fewer_servers_first(b);
    lemma_fewer_servers_first_total(a);
    lemma_fewer_servers_first_total(b);
    all.lemma_sort_by_ensures(la);
    all.lemma_sort_by_ensures(lb);
    let oa = all.sort_by(la);
    assert forall|i: int| 0 <= i < oa.len() implies #[trigger] oa[i] < a.len() by {
        assert(oa.contains(oa[i]));
        if !all.contains(oa[i]) {
            assert(!oa.contains(oa[i]));
        }
        let j = choose|j: int| 0 <= j < all.len() && all[j] == oa[i];
        assert(all[j] == j as usize);
    }
    assert forall|i: int, j: int| 0 <= i < j < oa.len() implies #[trigger] lb(oa[i], oa[j]) by {
        assert(la(oa[i], oa[j]));
        assert(oa[i] < a.len() && oa[j] < a.len());
        assert(a[oa[i] as int]@ == b[oa[i] as int]@);
        assert(a[oa[j] as int]@ == b[oa[j] as int]@);
    }
    lemma_sorted_unique(oa, all.sort_by(lb), lb);
}

proof fn lemma_family_views(a: Seq<Vec<usize>>, b: Seq<Vec<usize>>, order: Seq<usize>, k: int)
    requires
        same_views(a, b),
        0 <= k <= order.len(),
        forall|i: int| 0 <= i < order.len() ==> #[trigger] order[i] < a.len(),
    ensures
        family_upto(a, order, k) == family_upto(b, order, k),
    decreases k,
{
    if k > 0 {
        lemma_family_views(a, b, order, k - 1);
        lemma_family_len(a, order, k - 1);
        let m = family_upto(a, order, k - 1);
        let p = order[k - 1] as int;
        assert(a[p]@ == b[p]@);
        assert((exists|q: int| 0 <= q < m.len() && #[trigger] m[q] && shares(a[p]@, a[q]@)) == (exists|q: int|
            0 <= q < m.len() && #[trigger] m[q] && shares(b[p]@, b[q]@))) by {
            if exists|q: int| 0 <= q < m.len() && #[trigger] m[q] && shares(a[p]@, a[q]@) {
                let q = choose|q: int| 0 <= q < m.len() && #[trigger] m[q] && shares(a[p]@, a[q]@);
                assert(a[q]@ == b[q]@);
            }
            if exists|q: int| 0 <= q < m.len() && #[trigger] m[q] && shares(b[p]@, b[q]@) {
                let q = choose|q: int| 0 <= q < m.len() && #[trigger] m[q] && shares(b[p]@, b[q]@);
                assert(a[q]@ == b[q]@);
            }
        }
    }
}

proof fn lemma_masked_required_views(a: Seq<Vec<usize>>, b: Seq<Vec<usize>>, redundancy: nat, mask: Seq<bool>, n: int)
    requires
        same_views(a, b),
        0 <= n <= a.len(),
    ensures
        masked_required(a, redundancy, mask, n) == masked_required(b, redundancy, mask, n),
    decreases n,
{
    if n > 0 {
        lemma_masked_required_views(a, b, redundancy, mask, n - 1);
        assert(a[n - 1]@ == b[n - 1]@);
    }
}

/// The bound reads each point only through the servers it lists.
pub proof fn lemma_single_bound_views(a: Seq<Vec<usize>>, b: Seq<Vec<usize>>)
    requires
        same_views(a, b),
    ensures
        single_bound(a) == single_bound(b),
{
    lemma_bound_order_views(a, b);
    lemma_order_len(a);
    lemma_family_views(a, b, bound_order(a), a.len() as int);
    lemma_masked_required_views(a, b, 1, bound_family(a), a.len() as int);
}

/// A lower bound on any valid activation set, computed independently of the
/// greedy choice.
///
/// Collect ground points no two of which share a serving satellite, taking
/// the most constrained (fewest servers) first. Each such point needs its
/// required servers of its own, so the bound is the sum of their
/// requirements.
pub fn cover_lower_bound(covering: &[Vec<usize>], redundancy: usize) -> (bound: usize)
    requires
        masked_required(covering@, redundancy as nat, bound_family(covering@), covering@.len() as int)
            <= usize::MAX,
    ensures
        bound == masked_required(covering@, redundancy as nat, bound_family(covering@), covering@.len() as int),
        disjoint_family(covering@, bound_family(covering@)),
        maximal_family(covering@, bound_family(covering@)),
        most_constrained_first(covering@, bound_family(covering@)),
        // No plan serving every point at `redundancy` lights fewer satellites,
        // when no point lists a satellite twice or one server per point is asked.
        forall|active: Seq<bool>|
            in_fleet(covering@, active.len() as int) && (no_repeats(covering@) || redundancy <= 1)
                && #[trigger] covers(covering@, active, redundancy as nat) ==> bound <= count_true(active),
{
    let n = covering.len();
    let mut items: Vec<usize> = Vec::new();
    let mut flag: Vec<bool> = Vec::new();
    let mut weight: Vec<usize> = Vec::new();
    let mut p: usize = 0;
    while p < n
        invariant
            p <= n,
            n == covering@.len(),
            items@.len() == p,
            flag@.len() == p,
            weight@.len() == p,
            forall|k: int| 0 <= k < p ==> #[trigger] items@[k] == k,
            forall|k: int| 0 <= k < p ==> !#[trigger] flag@[k],
            forall|k: int| 0 <= k < p ==> #[trigger] weight@[k] == covering@[k]@.len(),
        decreases n - p,
    {
        items.push(p);
        flag.push(false);
        weight.push(covering[p].len());
        p = p + 1;
    }
    proof {
        assert(items@.no_duplicates());
    }
    let order = stable_sort_by_key(&items, &flag, &weight);
    proof {
        let leq = fewer_servers_first(covering@);
        let all = Seq::new(n as nat, |i: int| i as usize);
        assert(items@ =~= all);
        assert(ascending(items@));
        assert(total_ordering(leq));
        all.lemma_sort_by_ensures(leq);
        assert forall|a: int, b: int| 0 <= a < b < order@.len() implies #[trigger] leq(order@[a], order@[b]) by {
            assert(key_leq(flag@, weight@)(order@[a], order@[b]));
            assert(order@.contains(order@[a]));
            assert(order@.contains(order@[b]));
            assert(items@.contains(order@[a]));
            assert(items@.contains(order@[b]));
        }
        lemma_sorted_unique(order@, all.sort_by(leq), leq);
        assert(order@ == bound_order(covering@));
    }
    proof {
        assert forall|k: int| 0 <= k < order@.len() implies #[trigger] order@[k] < n by {
            assert(order@.contains(order@[k]));
            assert(items@.contains(order@[k]));
        }
        assert forall|q: usize| q < n implies order@.contains(q) by {
            assert(items@[q as int] == q);
        }
    }
    let mut claimed: Vec<bool> = Vec::new();
    let mut bound: usize = 0;
    let ghost mut mask: Seq<bool> = Seq::new(n as nat, |i: int| false);
    proof {
        lemma_masked_required_none(covering@, redundancy as nat, mask, n as int);
    }
    let mut idx: usize = 0;
    while idx < order.len()
        invariant
            idx <= order@.len(),
            order@.len() == n,
            n == covering@.len(),
            order@.no_duplicates(),
            forall|k: int| 0 <= k < order@.len() ==> #[trigger] order@[k] < n,
            forall|q: usize| q < n ==> order@.contains(q),
            mask.len() == n,
            forall|k: int| idx <= k < order@.len() ==> !mask[#[trigger] order@[k] as int],
            disjoint_family(covering@, mask),
            forall|k: int|
                0 <= k < idx && !mask[#[trigger] order@[k] as int] && covering@[order@[k] as int]@.len() > 0
                    ==> exists|q: int| 0 <= q < n && mask[q] && shares(covering@[order@[k] as int]@, covering@[q]@),
            forall|q: int, i: int|
                0 <= q < n && mask[q] && 0 <= i < covering@[q]@.len() ==> #[trigger] covering@[q]@[i] < claimed@.len()
                    && claimed@[covering@[q]@[i] as int],
            forall|t: int|
                0 <= t < claimed@.len() && #[trigger] claimed@[t] ==> exists|q: int|
                    0 <= q < n && mask[q] && covering@[q]@.contains(t as usize),
            bound == masked_required(covering@, redundancy as nat, mask, n as int),
            masked_required(covering@, redundancy as nat, bound_family(covering@), n as int) <= usize::MAX,
            order@ == bound_order(covering@),
            mask == family_upto(covering@, order@, idx as int),
        decreases order@.len() - idx,
    {
        let p = order[idx];
        let sats = &covering[p];
        let len = sats.len();
        if len > 0 {
            let mut mx: usize = 0;
            let mut i: usize = 0;
            while i < len
                invariant
                    i <= len,
                    len == sats@.len(),
                    forall|j: int| 0 <= j < i ==> #[trigger] sats@[j] <= mx,
                decreases len - i,
            {
                if sats[i] > mx {
                    mx = sats[i];
                }
                i = i + 1;
            }
            let ghost before_grow = claimed@;
            while claimed.len() <= mx
                invariant
                    claimed@.len() >= before_grow.len(),
                    forall|t: int| 0 <= t < before_grow.len() ==> #[trigger] claimed@[t] == before_grow[t],
                    forall|t: int| before_grow.len() <= t < claimed@.len() ==> !#[trigger] claimed@[t],
                decreases mx + 1 - claimed@.len(),
            {
                claimed.push(false);
            }
            proof {
                assert forall|q: int, j: int|
                    0 <= q < n && mask[q] && 0 <= j < covering@[q]@.len() implies #[trigger] covering@[q]@[j]
                        < claimed@.len() && claimed@[covering@[q]@[j] as int] by {
                    assert(before_grow[covering@[q]@[j] as int]);
                }
                assert forall|t: int| 0 <= t < claimed@.len() && #[trigger] claimed@[t] implies exists|q: int|
                    0 <= q < n && mask[q] && covering@[q]@.contains(t as usize) by {
                    assert(t < before_grow.len());
                    assert(before_grow[t]);
                }
            }
            let mut hit = false;
            let mut i: usize = 0;
            while i < len
                invariant
                    i <= len,
                    len == sats@.len(),
                    forall|j: int| 0 <= j < len ==> #[trigger] sats@[j] < claimed@.len(),
                    hit ==> exists|j: int| 0 <= j < i && claimed@[#[trigger] sats@[j] as int],
                    !hit ==> forall|j: int| 0 <= j < i ==> !claimed@[#[trigger] sats@[j] as int],
                decreases len - i,
            {
                if claimed[sats[i]] {
                    hit = true;
                }
                i = i + 1;
            }
            if !hit {
                let ghost before_claim = claimed@;
                let mut i: usize = 0;
                while i < len
                    invariant
                        i <= len,
                        len == sats@.len(),
                        forall|j: int| 0 <= j < len ==> #[trigger] sats@[j] < claimed@.len(),
                        claimed@.len() == before_claim.len(),
                        forall|t: int| 0 <= t < claimed@.len() && before_claim[t] ==> #[trigger] claimed@[t],
                        forall|j: int| 0 <= j < i ==> claimed@[#[trigger] sats@[j] as int],
                        forall|t: int|
                            0 <= t < claimed@.len() && #[trigger] claimed@[t] ==> before_claim[t]
                                || sats@.contains(t as usize),
                    decreases len - i,
                {
                    claimed.set(sats[i], true);
                    proof {
                        assert(sats@[i as int] == sats@[i as int]);
                    }
                    i = i + 1;
                }
                let want = if redundancy <= len { redundancy } else { len };
                proof {
                    lemma_masked_required_pick(covering@, redundancy as nat, mask, p as int, n as int);
                    assert(mask.update(p as int, true) == family_upto(covering@, order@, idx as int + 1));
                    lemma_family_grows(covering@, order@, idx as int + 1, n as int);
                    lemma_masked_required_mono(
                        covering@,
                        redundancy as nat,
                        mask.update(p as int, true),
                        bound_family(covering@),
                        n as int,
                    );
                }
                bound = bound + want;
                let ghost old_mask = mask;
                proof {
                    mask = mask.update(p as int, true);
                    assert forall|q: int, r: int|
                        0 <= q < mask.len() && 0 <= r < mask.len() && q != r && #[trigger] mask[q] && #[trigger] mask[r]
                            implies !shares(covering@[q]@, covering@[r]@) by {
                        if q == p || r == p {
                            let o = if q == p { r } else { q };
                            assert(old_mask[o]);
                            if shares(covering@[q]@, covering@[r]@) {
                                let t = choose|t: usize| covering@[q]@.contains(t) && covering@[r]@.contains(t);
                                let j = choose|j: int| 0 <= j < covering@[o]@.len() && covering@[o]@[j] == t;
                                assert(before_claim[covering@[o]@[j] as int]);
                                let m = choose|m: int| 0 <= m < sats@.len() && sats@[m] == t;
                                assert(!before_claim[sats@[m] as int]);
                            }
                        } else {
                            assert(old_mask[q] && old_mask[r]);
                        }
                    }
                    assert forall|k: int| idx + 1 <= k < order@.len() implies !mask[#[trigger] order@[k] as int] by {
                        assert(order@[k] != order@[idx as int]);
                    }
                    assert forall|k: int|
                        0 <= k < idx + 1 && !mask[#[trigger] order@[k] as int] && covering@[order@[k] as int]@.len() > 0
                            implies exists|q: int| 0 <= q < n && mask[q] && shares(covering@[order@[k] as int]@, covering@[q]@) by {
                        assert(k < idx);
                        let q = choose|q: int| 0 <= q < n && old_mask[q] && shares(covering@[order@[k] as int]@, covering@[q]@);
                        assert(mask[q]);
                    }
                    assert forall|q: int, j: int|
                        0 <= q < n && mask[q] && 0 <= j < covering@[q]@.len() implies #[trigger] covering@[q]@[j]
                            < claimed@.len() && claimed@[covering@[q]@[j] as int] by {
                        if q == p {
                            assert(sats@[j] == covering@[q]@[j]);
                        } else {
                            assert(old_mask[q]);
                            assert(before_claim[covering@[q]@[j] as int]);
                        }
                    }
                    assert forall|t: int| 0 <= t < claimed@.len() && #[trigger] claimed@[t] implies exists|q: int|
                        0 <= q < n && mask[q] && covering@[q]@.contains(t as usize) by {
                        if before_claim[t] {
                            let q = choose|q: int| 0 <= q < n && old_mask[q] && covering@[q]@.contains(t as usize);
                            assert(mask[q]);
                        } else {
                            assert(mask[p as int]);
                        }
                    }
                }
            } else {
                proof {
                    let j = choose|j: int| 0 <= j < len && claimed@[#[trigger] sats@[j] as int];
                    let t = sats@[j];
                    let q = choose|q: int| 0 <= q < n && mask[q] && covering@[q]@.contains(t);
                    assert(sats@.contains(t));
                    assert(shares(covering@[p as int]@, covering@[q]@));
                    assert forall|k: int| idx + 1 <= k < order@.len() implies !mask[#[trigger] order@[k] as int] by {
                        assert(order@[k] != order@[idx as int]);
                    }
                }
            }
        } else {
            proof {
                assert forall|k: int| idx + 1 <= k < order@.len() implies !mask[#[trigger] order@[k] as int] by {
                    assert(order@[k] != order@[idx as int]);
                }
            }
        }
        idx = idx + 1;
    }
    proof {
        assert forall|q: int|
            0 <= q < mask.len() && !#[trigger] mask[q] && covering@[q]@.len() > 0 implies exists|r: int|
                0 <= r < mask.len() && mask[r] && shares(covering@[q]@, covering@[r]@) by {
            assert(order@.contains(q as usize));
            let k = choose|k: int| 0 <= k < order@.len() && order@[k] == q as usize;
            assert(!mask[order@[k] as int]);
        }
        assert(maximal_family(covering@, mask));
        lemma_bound_family_constrained_first(covering@);
        assert forall|active: Seq<bool>|
            in_fleet(covering@, active.len() as int) && (no_repeats(covering@) || redundancy <= 1)
                && #[trigger] covers(covering@, active, redundancy as nat) implies bound <= count_true(active) by {
            lemma_family_bounds_every_cover(covering@, redundancy as nat, mask, active);
        }
    }
    bound
}

} // verus!
