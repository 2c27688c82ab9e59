//! The provably smallest single-coverage activation set, by branch and bound.
//!
//! Any valid cover must contain a satellite able to serve the most
//! constrained still-uncovered point, so branching over that point's covering
//! set enumerates every cover; the independent lower bound on the remaining
//! points prunes the rest.

use vstd::prelude::*;
use crate::tally::{
    all_below, count_lit, count_of, count_true, lemma_count_lit_lit_entry,
    lemma_count_lit_switch_off, lemma_count_lit_witness, lemma_count_of_contains,
    lemma_count_true_switch, lemma_count_true_take, lemma_count_true_le_len, lemma_count_true_all_dark,
};
use crate::activation::{
    all_dark, build_serves, covers, dark_fleet, in_fleet, no_repeats, required, select_active,
    serves_matches, was_lit, was_on, ActivationPlan,
};
use crate::greedy::{greedy_from, lit_upto, listings, pruned, lemma_count_sum_is_listings, lemma_count_sum_len};
use crate::cover_bound::{
    lemma_bound_within_total, cover_lower_bound, lemma_total_required_single, lemma_single_bound_views,
    same_views, single_bound,
};
use crate::order::{key_order, stable_sort_by_key};

verus! {

/// Every entry of `a` also appears in `b`.
pub open spec fn subset_of(a: Seq<usize>, b: Seq<usize>) -> bool {
    forall|i: int| 0 <= i < a.len() ==> b.contains(#[trigger] a[i])
}

/// Point `q` makes point `p` redundant: every satellite serving `q` also
/// serves `p`, and `q` is no larger (ties broken by index).
pub open spec fn dominates(covering: Seq<Vec<usize>>, q: int, p: int) -> bool {
    &&& 0 <= q < covering.len()
    &&& q != p
    &&& covering[q]@.len() <= covering[p]@.len()
    &&& (covering[q]@.len() < covering[p]@.len() || q < p)
    &&& subset_of(covering[q]@, covering[p]@)
}

/// No point dominates point `p`.
pub open spec fn undominated(covering: Seq<Vec<usize>>, p: int) -> bool {
    forall|q: int| !#[trigger] dominates(covering, q, p)
}

/// Every point is served by some satellite of `chosen`.
pub open spec fn list_covers(reduced: Seq<Vec<usize>>, chosen: Seq<usize>) -> bool {
    forall|k: int| 0 <= k < reduced.len() ==> #[trigger] has_picked_server(reduced[k]@, chosen)
}

/// Some satellite of `chosen` serves the point whose servers are `sats`.
pub open spec fn has_picked_server(sats: Seq<usize>, chosen: Seq<usize>) -> bool {
    exists|c: usize| #[trigger] picked_server(sats, chosen, c)
}

/// Satellite `c` is in `chosen` and serves the point whose servers are `sats`.
pub open spec fn picked_server(sats: Seq<usize>, chosen: Seq<usize>, c: usize) -> bool {
    chosen.contains(c) && sats.contains(c)
}

/// `covered` flags exactly the points some satellite of `chosen` serves.
pub open spec fn covered_matches(reduced: Seq<Vec<usize>>, covered: Seq<bool>, chosen: Seq<usize>) -> bool {
    &&& covered.len() == reduced.len()
    &&& forall|i: int|
        0 <= i < reduced.len() ==> (#[trigger] covered[i] <==> exists|c: usize|
            chosen.contains(c) && reduced[i]@.contains(c))
}

/// `t` lights a server for every point not yet covered.
pub open spec fn covers_uncovered(reduced: Seq<Vec<usize>>, covered: Seq<bool>, t: Seq<bool>) -> bool {
    forall|i: int| 0 <= i < reduced.len() && !#[trigger] covered[i] ==> count_lit(reduced[i]@, t) >= 1
}

/// The best cover found so far is a list of `best` distinct satellites that
/// (when no point lists a satellite twice) serves every point.
pub open spec fn incumbent_ok(
    reduced: Seq<Vec<usize>>,
    best_set: Seq<usize>,
    best: usize,
    fleet: usize,
    good: bool,
) -> bool {
    &&& best_set.len() == best
    &&& best_set.no_duplicates()
    &&& forall|k: int| 0 <= k < best_set.len() ==> #[trigger] best_set[k] < fleet
    &&& good ==> list_covers(reduced, best_set)
}

fn copy_vec(v: &Vec<usize>) -> (r: Vec<usize>)
    ensures
        r@ == v@,
{
    let mut r: Vec<usize> = Vec::new();
    let mut i: usize = 0;
    while i < v.len()
        invariant
            i <= v@.len(),
            r@ == v@.take(i as int),
        decreases v@.len() - i,
    {
        r.push(v[i]);
        proof {
            assert(v@.take(i as int + 1) =~= v@.take(i as int).push(v@[i as int]));
        }
        i = i + 1;
    }
    assert(v@.take(i as int) =~= v@);
    r
}

fn list_contains(v: &Vec<usize>, x: usize) -> (b: bool)
    ensures
        b == v@.contains(x),
{
    let mut i: usize = 0;
    while i < v.len()
        invariant
            i <= v@.len(),
            forall|j: int| 0 <= j < i ==> #[trigger] v@[j] != x,
        decreases v@.len() - i,
    {
        if v[i] == x {
            return true;
        }
        i = i + 1;
    }
    false
}

fn list_subset(a: &Vec<usize>, b: &Vec<usize>) -> (r: bool)
    ensures
        r == subset_of(a@, b@),
{
    let mut i: usize = 0;
    while i < a.len()
        invariant
            i <= a@.len(),
            forall|j: int| 0 <= j < i ==> b@.contains(#[trigger] a@[j]),
        decreases a@.len() - i,
    {
        if !list_contains(b, a[i]) {
            return false;
        }
        i = i + 1;
    }
    true
}

/// Every point has an undominated point whose servers all serve it too.
proof fn lemma_undominated_below(covering: Seq<Vec<usize>>, p: int) -> (q: int)
    requires
        0 <= p < covering.len(),
    ensures
        0 <= q < covering.len(),
        undominated(covering, q),
        subset_of(covering[q]@, covering[p]@),
    decreases covering[p]@.len() * covering.len() + p,
{
    let n = covering.len() as int;
    if exists|d: int| #[trigger] dominates(covering, d, p) {
        let d = choose|d: int| #[trigger] dominates(covering, d, p);
        let ld = covering[d]@.len() as int;
        let lp = covering[p]@.len() as int;
        assert(ld * n + d < lp * n + p) by (nonlinear_arith)
            requires
                0 <= d < n,
                0 <= p < n,
                0 <= ld <= lp,
                ld < lp || d < p,
        ;
        let q = lemma_undominated_below(covering, d);
        assert forall|i: int| 0 <= i < covering[q]@.len() implies covering[p]@.contains(
            #[trigger] covering[q]@[i],
        ) by {
            let x = covering[q]@[i];
            assert(covering[d]@.contains(x));
            let j = choose|j: int| 0 <= j < covering[d]@.len() && covering[d]@[j] == x;
            assert(covering[p]@.contains(covering[d]@[j]));
        }
        q
    } else {
        assert forall|i: int| 0 <= i < covering[p]@.len() implies covering[p]@.contains(
            #[trigger] covering[p]@[i],
        ) by {}
        p
    }
}

/// Pointwise growth of a flag vector that lights one more flag raises the count.
proof fn lemma_count_true_grows(a: Seq<bool>, b: Seq<bool>, i: int)
    requires
        a.len() == b.len(),
        forall|k: int| 0 <= k < a.len() && #[trigger] a[k] ==> b[k],
        0 <= i < a.len(),
        !a[i],
        b[i],
    ensures
        count_true(a) < count_true(b),
    decreases a.len(),
{
    lemma_count_true_le_mono(a.drop_last(), b.drop_last());
    if i < a.len() - 1 {
        lemma_count_true_grows(a.drop_last(), b.drop_last(), i);
    }
}

proof fn lemma_count_true_le_mono(a: Seq<bool>, b: Seq<bool>)
    requires
        a.len() == b.len(),
        forall|k: int| 0 <= k < a.len() && #[trigger] a[k] ==> b[k],
    ensures
        count_true(a) <= count_true(b),
    decreases a.len(),
{
    if a.len() > 0 {
        lemma_count_true_le_mono(a.drop_last(), b.drop_last());
    }
}

proof fn lemma_lit_somewhere(t: Seq<bool>, x: int)
    requires
        0 <= x < t.len(),
        t[x],
    ensures
        count_true(t) >= 1,
{
    lemma_count_true_switch(t, x, false);
}

/// `covered` with every point that satellite `s` serves flagged as well.
pub open spec fn cover_with(rows: Seq<Vec<usize>>, covered: Seq<bool>, s: usize) -> Seq<bool> {
    Seq::new(covered.len(), |x: int| covered[x] || rows[x]@.contains(s))
}

/// Among the first `upto` points, the first uncovered one with strictly the
/// fewest servers.
pub open spec fn target_upto(rows: Seq<Vec<usize>>, covered: Seq<bool>, upto: int) -> Option<int>
    decreases upto,
{
    if upto <= 0 {
        None
    } else {
        let prev = target_upto(rows, covered, upto - 1);
        if !covered[upto - 1] && (prev is None || rows[upto - 1]@.len() < rows[prev->0]@.len()) {
            Some(upto - 1)
        } else {
            prev
        }
    }
}

/// The uncovered points among the first `upto`, in order.
pub open spec fn uncovered_rows(rows: Seq<Vec<usize>>, covered: Seq<bool>, upto: int) -> Seq<Vec<usize>>
    decreases upto,
{
    if upto <= 0 {
        Seq::empty()
    } else if covered[upto - 1] {
        uncovered_rows(rows, covered, upto - 1)
    } else {
        uncovered_rows(rows, covered, upto - 1).push(rows[upto - 1])
    }
}

/// What the search does from one node, as (nodes visited, size of the best
/// cover, the best cover): a node with every point covered offers `chosen`;
/// otherwise it stops when one more satellite, or the lower bound on what is
/// left, reaches the best size, and else tries each server of the most
/// constrained uncovered point in key order.
pub open spec fn search_from(
    rows: Seq<Vec<usize>>,
    flag: Seq<bool>,
    weight: Seq<usize>,
    covered: Seq<bool>,
    chosen: Seq<usize>,
    best: nat,
    best_set: Seq<usize>,
) -> (nat, nat, Seq<usize>)
    decreases covered.len() - count_true(covered), 1int, 0int,
{
    match target_upto(rows, covered, rows.len() as int) {
        None => {
            if chosen.len() < best {
                (1nat, chosen.len(), chosen)
            } else {
                (1nat, best, best_set)
            }
        },
        Some(t) => {
            if chosen.len() + 1 >= best {
                (1nat, best, best_set)
            } else if chosen.len() + single_bound(uncovered_rows(rows, covered, rows.len() as int)) >= best {
                (1nat, best, best_set)
            } else {
                let r = branches_from(
                    rows,
                    flag,
                    weight,
                    covered,
                    chosen,
                    key_order(flag, weight, rows[t]@),
                    0,
                    best,
                    best_set,
                );
                (1 + r.0, r.1, r.2)
            }
        },
    }
}

/// The search over the branches `order[k..]` of one node, each adding its
/// satellite to `chosen`, the best cover carried from one to the next. Every
/// branch the search takes covers at least one more point; the guard on that
/// only keeps the definition well-founded.
pub open spec fn branches_from(
    rows: Seq<Vec<usize>>,
    flag: Seq<bool>,
    weight: Seq<usize>,
    covered: Seq<bool>,
    chosen: Seq<usize>,
    order: Seq<usize>,
    k: int,
    best: nat,
    best_set: Seq<usize>,
) -> (nat, nat, Seq<usize>)
    decreases covered.len() - count_true(covered), 0int, order.len() - k,
{
    if 0 <= k < order.len() {
        let s = order[k];
        let c1 = cover_with(rows, covered, s);
        if count_true(covered) < count_true(c1) <= c1.len() {
            let r = search_from(rows, flag, weight, c1, chosen.push(s), best, best_set);
            let rest = branches_from(rows, flag, weight, covered, chosen, order, k + 1, r.1, r.2);
            (r.0 + rest.0, rest.1, rest.2)
        } else {
            (0nat, best, best_set)
        }
    } else {
        (0nat, best, best_set)
    }
}

/// The search never offers a cover larger than the one it started with, and
/// visits at least the node it starts from.
pub proof fn lemma_search_keeps_best(
    rows: Seq<Vec<usize>>,
    flag: Seq<bool>,
    weight: Seq<usize>,
    covered: Seq<bool>,
    chosen: Seq<usize>,
    best: nat,
    best_set: Seq<usize>,
)
    ensures
        search_from(rows, flag, weight, covered, chosen, best, best_set).1 <= best,
        search_from(rows, flag, weight, covered, chosen, best, best_set).0 >= 1,
    decreases covered.len() - count_true(covered), 1int, 0int,
{
    if let Some(t) = target_upto(rows, covered, rows.len() as int) {
        if chosen.len() + 1 < best && chosen.len() + single_bound(uncovered_rows(rows, covered, rows.len() as int))
            < best {
            lemma_branches_keep_best(rows, flag, weight, covered, chosen, key_order(flag, weight, rows[t]@), 0, best, best_set);
        }
    }
}

/// Trying branches never offers a cover larger than the one carried in.
pub proof fn lemma_branches_keep_best(
    rows: Seq<Vec<usize>>,
    flag: Seq<bool>,
    weight: Seq<usize>,
    covered: Seq<bool>,
    chosen: Seq<usize>,
    order: Seq<usize>,
    k: int,
    best: nat,
    best_set: Seq<usize>,
)
    ensures
        branches_from(rows, flag, weight, covered, chosen, order, k, best, best_set).1 <= best,
    decreases covered.len() - count_true(covered), 0int, order.len() - k,
{
    if 0 <= k < order.len() {
        let s = order[k];
        let c1 = cover_with(rows, covered, s);
        if count_true(covered) < count_true(c1) <= c1.len() {
            lemma_search_keeps_best(rows, flag, weight, c1, chosen.push(s), best, best_set);
            let r = search_from(rows, flag, weight, c1, chosen.push(s), best, best_set);
            lemma_branches_keep_best(rows, flag, weight, covered, chosen, order, k + 1, r.1, r.2);
        }
    }
}

/// Indices of the points among the first `upto` that no other point
/// dominates, ascending.
pub open spec fn kept_upto(covering: Seq<Vec<usize>>, upto: int) -> Seq<usize>
    decreases upto,
{
    if upto <= 0 {
        Seq::empty()
    } else if undominated(covering, upto - 1) {
        kept_upto(covering, upto - 1).push((upto - 1) as usize)
    } else {
        kept_upto(covering, upto - 1)
    }
}

/// The points the exact search works on: those no other point dominates, in
/// their original order.
pub open spec fn kept_rows(covering: Seq<Vec<usize>>) -> Seq<Vec<usize>> {
    kept_upto(covering, covering.len() as int).map_values(|p: usize| covering[p as int])
}

/// Branch key, first part: dark in `previous`, so satellites lit there come
/// first.
pub open spec fn dark_before(previous: Option<&[bool]>, fleet: nat) -> Seq<bool> {
    Seq::new(fleet, |s: int| !was_lit(previous, s))
}

/// Branch key, second part: satellites listed more often come first.
pub open spec fn listing_weights(rows: Seq<Vec<usize>>, fleet: nat) -> Seq<usize> {
    Seq::new(fleet, |s: int| (usize::MAX - listings(rows, s as usize)) as usize)
}

/// The greedy plan at single coverage, which seeds the exact search.
pub open spec fn greedy_plan(covering: Seq<Vec<usize>>, fleet: usize, previous: Option<&[bool]>) -> Seq<bool> {
    pruned(covering, greedy_from(covering, fleet as int, all_dark(fleet as nat), 1, previous), 1, previous)
}

/// The whole exact search, unbounded: from no point covered and nothing
/// chosen, with the greedy plan as the best cover so far.
pub open spec fn exact_run(covering: Seq<Vec<usize>>, fleet: usize, previous: Option<&[bool]>) -> (nat, nat, Seq<usize>) {
    let rows = kept_rows(covering);
    let seed = greedy_plan(covering, fleet, previous);
    search_from(
        rows,
        dark_before(previous, fleet as nat),
        listing_weights(rows, fleet as nat),
        Seq::new(rows.len(), |i: int| false),
        Seq::empty(),
        count_true(seed),
        lit_upto(seed, fleet as int),
    )
}

/// Nodes the exact search visits before it finishes.
pub open spec fn search_nodes(covering: Seq<Vec<usize>>, fleet: usize, previous: Option<&[bool]>) -> nat {
    exact_run(covering, fleet, previous).0
}

/// Size of the cover the exact search settles on.
pub open spec fn exact_lit(covering: Seq<Vec<usize>>, fleet: usize, previous: Option<&[bool]>) -> nat {
    exact_run(covering, fleet, previous).1
}

/// The satellites of the cover the exact search settles on.
pub open spec fn exact_set(covering: Seq<Vec<usize>>, fleet: usize, previous: Option<&[bool]>) -> Seq<usize> {
    exact_run(covering, fleet, previous).2
}

/// Lit flags for a fleet of `fleet`, lit exactly where `set` names.
pub open spec fn flags_of(set: Seq<usize>, fleet: nat) -> Seq<bool> {
    Seq::new(fleet, |x: int| set.contains(x as usize))
}

/// Some point has no server at all.
pub open spec fn some_point_unserved(covering: Seq<Vec<usize>>) -> bool {
    exists|p: int| 0 <= p < covering.len() && (#[trigger] covering[p])@.len() == 0
}

/// What the exact search answers under `budget`: nothing when some point has
/// no server or the search needs more nodes than that, else the size and
/// flags of the cover it settles on.
pub open spec fn exact_outcome(
    covering: Seq<Vec<usize>>,
    fleet: usize,
    previous: Option<&[bool]>,
    budget: nat,
) -> Option<(nat, Seq<bool>)> {
    if some_point_unserved(covering) || search_nodes(covering, fleet, previous) > budget {
        None
    } else {
        Some((exact_lit(covering, fleet, previous), flags_of(exact_set(covering, fleet, previous), fleet as nat)))
    }
}

/// The exact plan never lights more satellites than the greedy plan it
/// starts from.
pub proof fn lemma_exact_never_exceeds_greedy(covering: Seq<Vec<usize>>, fleet: usize, previous: Option<&[bool]>)
    ensures
        exact_lit(covering, fleet, previous) <= count_true(greedy_plan(covering, fleet, previous)),
{
    let rows = kept_rows(covering);
    let seed = greedy_plan(covering, fleet, previous);
    lemma_search_keeps_best(
        rows,
        dark_before(previous, fleet as nat),
        listing_weights(rows, fleet as nat),
        Seq::new(rows.len(), |i: int| false),
        Seq::empty(),
        count_true(seed),
        lit_upto(seed, fleet as int),
    );
}

/// A larger node budget never loses or changes a finished answer.
pub proof fn lemma_larger_budget_keeps_answer(
    covering: Seq<Vec<usize>>,
    fleet: usize,
    previous: Option<&[bool]>,
    budget: nat,
    larger: nat,
)
    requires
        budget <= larger,
        exact_outcome(covering, fleet, previous, budget) is Some,
    ensures
        exact_outcome(covering, fleet, previous, larger) == exact_outcome(covering, fleet, previous, budget),
{
}

/// Depth-first branch and bound, visiting exactly the nodes of
/// [`search_from`]. Returns `false` if the node budget ran out first.
#[verifier::rlimit(50)]
fn search(
    reduced: &Vec<Vec<usize>>,
    serves: &Vec<Vec<usize>>,
    flag: &Vec<bool>,
    weight: &Vec<usize>,
    budget: u64,
    fleet: usize,
    covered: &mut Vec<bool>,
    chosen: &mut Vec<usize>,
    best: &mut usize,
    best_set: &mut Vec<usize>,
    nodes: &mut u64,
    Ghost(rows): Ghost<Seq<Vec<usize>>>,
    Ghost(good): Ghost<bool>,
) -> (finished: bool)
    requires
        same_views(reduced@, rows),
        in_fleet(reduced@, fleet as int),
        serves@.len() == fleet,
        serves_matches(serves@, reduced@),
        flag@.len() == fleet,
        weight@.len() == fleet,
        forall|i: int| 0 <= i < reduced@.len() ==> (#[trigger] reduced@[i])@.len() > 0,
        covered_matches(reduced@, old(covered)@, old(chosen)@),
        old(chosen)@.no_duplicates(),
        forall|k: int| 0 <= k < old(chosen)@.len() ==> #[trigger] old(chosen)@[k] < fleet,
        incumbent_ok(reduced@, old(best_set)@, *old(best), fleet, good),
    ensures
        final(covered)@ == old(covered)@,
        final(chosen)@ == old(chosen)@,
        *final(best) <= *old(best),
        incumbent_ok(reduced@, final(best_set)@, *final(best), fleet, good),
        finished ==> forall|t: Seq<bool>|
            t.len() == fleet && #[trigger] covers_uncovered(reduced@, old(covered)@, t) ==> *final(best)
                <= old(chosen)@.len() + count_true(t),
        finished <==> *old(nodes) + search_from(
            rows,
            flag@,
            weight@,
            old(covered)@,
            old(chosen)@,
            *old(best) as nat,
            old(best_set)@,
        ).0 <= budget,
        finished ==> {
            let r = search_from(rows, flag@, weight@, old(covered)@, old(chosen)@, *old(best) as nat, old(best_set)@);
            &&& *final(nodes) == *old(nodes) + r.0
            &&& *final(best) == r.1
            &&& final(best_set)@ == r.2
        },
    decreases old(covered)@.len() - count_true(old(covered)@),
{
    let ghost n0 = *nodes as int;
    let ghost here = search_from(rows, flag@, weight@, covered@, chosen@, *best as nat, best_set@);
    proof {
        lemma_count_true_le_len(covered@);
        lemma_search_keeps_best(rows, flag@, weight@, covered@, chosen@, *best as nat, best_set@);
    }
    if *nodes >= budget {
        return false;
    }
    *nodes = *nodes + 1;
    let m = reduced.len();
    let ghost covered0 = covered@;
    let ghost chosen0 = chosen@;
    let mut target: Option<usize> = None;
    let mut fewest: usize = 0;
    let mut i: usize = 0;
    while i < m
        invariant
            i <= m,
            m == reduced@.len(),
            covered@.len() == m,
            target matches Some(t) ==> t < i && !covered@[t as int],
            target is None ==> forall|j: int| 0 <= j < i ==> #[trigger] covered@[j],
            same_views(reduced@, rows),
            target_upto(rows, covered@, i as int) == match target {
                Some(t) => Some(t as int),
                None => None::<int>,
            },
            target matches Some(t) ==> fewest == rows[t as int]@.len(),
        decreases m - i,
    {
        proof {
            assert(reduced@[i as int]@ == rows[i as int]@);
        }
        if !covered[i] {
            let better = match target {
                None => true,
                Some(_) => reduced[i].len() < fewest,
            };
            if better {
                target = Some(i);
                fewest = reduced[i].len();
            }
        }
        i = i + 1;
    }
    match target {
        None => {
            proof {
                assert forall|k: int| 0 <= k < reduced@.len() implies #[trigger] has_picked_server(reduced@[k]@, chosen@) by {
                    assert(covered@[k]);
                    let c = choose|c: usize| chosen@.contains(c) && reduced@[k]@.contains(c);
                    assert(picked_server(reduced@[k]@, chosen@, c));
                }
            }
            if chosen.len() < *best {
                *best = chosen.len();
                *best_set = copy_vec(chosen);
            }
            return true;
        },
        Some(t) => {
            proof {
                assert forall|tt: Seq<bool>|
                    tt.len() == fleet && #[trigger] covers_uncovered(reduced@, covered0, tt) implies count_true(tt)
                        >= 1 by {
                    assert(count_lit(reduced@[t as int]@, tt) >= 1);
                    let j = lemma_count_lit_witness(reduced@[t as int]@, tt);
                    assert(all_below(reduced@[t as int]@, fleet as int));
                    lemma_lit_somewhere(tt, reduced@[t as int]@[j] as int);
                }
            }
            if *best == 0 || chosen.len() >= *best - 1 {
                return true;
            }
            let mut remaining: Vec<Vec<usize>> = Vec::new();
            let mut i: usize = 0;
            while i < m
                invariant
                    i <= m,
                    m == reduced@.len(),
                    covered@ == covered0,
                    covered0.len() == m,
                    forall|k: int|
                        0 <= k < remaining@.len() ==> exists|j: int|
                            0 <= j < m && !covered0[j] && (#[trigger] remaining@[k])@ == reduced@[j]@,
                    same_views(reduced@, rows),
                    same_views(remaining@, uncovered_rows(rows, covered0, i as int)),
                decreases m - i,
            {
                proof {
                    assert(reduced@[i as int]@ == rows[i as int]@);
                }
                if !covered[i] {
                    let row = copy_vec(&reduced[i]);
                    let ghost old_rem = remaining@;
                    remaining.push(row);
                    proof {
                        assert forall|k: int| 0 <= k < remaining@.len() implies exists|j: int|
                            0 <= j < m && !covered0[j] && (#[trigger] remaining@[k])@ == reduced@[j]@ by {
                            if k < old_rem.len() {
                                assert(remaining@[k] == old_rem[k]);
                            } else {
                                assert(remaining@[k]@ == reduced@[i as int]@);
                            }
                        }
                    }
                }
                i = i + 1;
            }
            let rl = remaining.len();
            proof {
                lemma_total_required_single(remaining@, 1, rl as int);
                lemma_bound_within_total(remaining@, 1);
            }
            let lb = cover_lower_bound(&remaining, 1);
            proof {
                lemma_single_bound_views(remaining@, uncovered_rows(rows, covered0, m as int));
                assert(lb == single_bound(uncovered_rows(rows, covered0, m as int)));
            }
            if lb >= *best - chosen.len() {
                proof {
                    assert(chosen@ == chosen0);
                    assert forall|tt: Seq<bool>|
                        tt.len() == fleet && #[trigger] covers_uncovered(reduced@, covered0, tt) implies *best
                            <= chosen0.len() + count_true(tt) by {
                        {
                            assert(in_fleet(remaining@, tt.len() as int)) by {
                                assert forall|k: int| 0 <= k < remaining@.len() implies all_below(
                                    #[trigger] remaining@[k]@,
                                    tt.len() as int,
                                ) by {
                                    let j = choose|j: int|
                                        0 <= j < m && !covered0[j] && remaining@[k]@ == reduced@[j]@;
                                    assert(all_below(reduced@[j]@, fleet as int));
                                }
                            }
                            assert(covers(remaining@, tt, 1)) by {
                                assert forall|k: int| 0 <= k < remaining@.len() implies count_lit(
                                    #[trigger] remaining@[k]@,
                                    tt,
                                ) >= required(remaining@[k]@.len(), 1) by {
                                    let j = choose|j: int|
                                        0 <= j < m && !covered0[j] && remaining@[k]@ == reduced@[j]@;
                                    assert(count_lit(reduced@[j]@, tt) >= 1);
                                }
                            }
                        }
                    }
                }
                return true;
            }
            let branches = stable_sort_by_key(&reduced[t], flag, weight);
            let ghost best0 = *best;
            proof {
                lemma_count_true_grows(covered0, covered0.update(t as int, true), t as int);
                lemma_count_true_le_len(covered0.update(t as int, true));
            }
            let ghost bs0 = best_set@;
            let ghost full = branches_from(rows, flag@, weight@, covered0, chosen0, branches@, 0, best0 as nat, bs0);
            proof {
                assert(reduced@[t as int]@ == rows[t as int]@);
                assert(branches@ == key_order(flag@, weight@, rows[t as int]@));
                assert(here == (1 + full.0, full.1, full.2));
            }
            let mut b: usize = 0;
            while b < branches.len()
                invariant
                    b <= branches@.len(),
                    branches@.len() == reduced@[t as int]@.len(),
                    same_views(reduced@, rows),
                    n0 + 1 <= *nodes <= budget,
                    n0 == *old(nodes) as int,
                    here == (1 + full.0, full.1, full.2),
                    here == search_from(rows, flag@, weight@, old(covered)@, old(chosen)@, *old(best) as nat, old(best_set)@),
                    full == branches_from(rows, flag@, weight@, covered0, chosen0, branches@, 0, best0 as nat, bs0),
                    ({
                        let rest = branches_from(rows, flag@, weight@, covered0, chosen0, branches@, b as int, *best as nat, best_set@);
                        full == ((*nodes - n0 - 1) as nat + rest.0, rest.1, rest.2)
                    }),
                    t < m,
                    m == reduced@.len(),
                    !covered0[t as int],
                    forall|x: usize| branches@.contains(x) <==> reduced@[t as int]@.contains(x),
                    in_fleet(reduced@, fleet as int),
                    serves@.len() == fleet,
                    serves_matches(serves@, reduced@),
                    flag@.len() == fleet,
                    weight@.len() == fleet,
                    forall|i: int| 0 <= i < reduced@.len() ==> (#[trigger] reduced@[i])@.len() > 0,
                    covered_matches(reduced@, covered0, chosen0),
                    chosen0.no_duplicates(),
                    forall|k: int| 0 <= k < chosen0.len() ==> #[trigger] chosen0[k] < fleet,
                    covered@ == covered0,
                    chosen@ == chosen0,
                    covered0 == old(covered)@,
                    chosen0 == old(chosen)@,
                    best0 == *old(best),
                    *best <= best0,
                    incumbent_ok(reduced@, best_set@, *best, fleet, good),
                    forall|tt: Seq<bool>|
                        tt.len() == fleet && #[trigger] covers_uncovered(reduced@, covered0, tt) && (exists|bb: int|
                            0 <= bb < b && tt[#[trigger] branches@[bb] as int]) ==> *best <= chosen0.len()
                            + count_true(tt),
                decreases branches@.len() - b,
            {
                let s = branches[b];
                proof {
                    assert(branches@.contains(s));
                    assert(reduced@[t as int]@.contains(s));
                    let j = choose|j: int| 0 <= j < reduced@[t as int]@.len() && reduced@[t as int]@[j] == s;
                    assert(all_below(reduced@[t as int]@, fleet as int));
                    assert(s < fleet);
                }
                let pts = &serves[s];
                let mut newly: Vec<usize> = Vec::new();
                let mut j: usize = 0;
                while j < pts.len()
                    invariant
                        j <= pts@.len(),
                        pts@ == serves@[s as int]@,
                        all_below(pts@, m as int),
                        covered@ == covered0,
                        covered0.len() == m,
                        forall|x: usize| #[trigger] newly@.contains(x) <==> (pts@.take(j as int).contains(x) && x < m
                            && !covered0[x as int]),
                        forall|k: int| 0 <= k < newly@.len() ==> #[trigger] newly@[k] < m,
                    decreases pts@.len() - j,
                {
                    let p = pts[j];
                    let ghost old_newly = newly@;
                    proof {
                        assert(p < m);
                        assert(pts@.take(j as int + 1) =~= pts@.take(j as int).push(p));
                    }
                    if !covered[p] {
                        newly.push(p);
                    }
                    proof {
                        assert forall|x: usize| #[trigger] newly@.contains(x) <==> (pts@.take(j as int + 1).contains(x)
                            && x < m && !covered0[x as int]) by {
                            assert(pts@.take(j as int + 1).contains(x) <==> (pts@.take(j as int).contains(x) || x == p)) by {
                                if pts@.take(j as int + 1).contains(x) {
                                    let h = choose|h: int| 0 <= h < j + 1 && #[trigger] pts@.take(j as int + 1)[h] == x;
                                    if h < j {
                                        assert(pts@.take(j as int)[h] == x);
                                    }
                                }
                                if pts@.take(j as int).contains(x) {
                                    let h = choose|h: int| 0 <= h < j && #[trigger] pts@.take(j as int)[h] == x;
                                    assert(pts@.take(j as int + 1)[h] == x);
                                }
                                if x == p {
                                    assert(pts@.take(j as int + 1)[j as int] == x);
                                }
                            }
                            assert(old_newly.contains(x) <==> (pts@.take(j as int).contains(x) && x < m && !covered0[x as int]));
                            assert(newly@.contains(x) <==> (old_newly.contains(x) || (x == p && !covered0[p as int]))) by {
                                if newly@.contains(x) {
                                    let k = choose|k: int| 0 <= k < newly@.len() && newly@[k] == x;
                                    if k < old_newly.len() {
                                        assert(old_newly[k] == x);
                                    }
                                }
                                if old_newly.contains(x) {
                                    let k = choose|k: int| 0 <= k < old_newly.len() && old_newly[k] == x;
                                    assert(newly@[k] == x);
                                }
                                if x == p && !covered0[p as int] {
                                    assert(newly@[old_newly.len() as int] == x);
                                }
                            }
                        }
                    }
                    j = j + 1;
                }
                proof {
                    assert(pts@.take(j as int) =~= pts@);
                }
                let mut j: usize = 0;
                while j < newly.len()
                    invariant
                        j <= newly@.len(),
                        forall|k: int| 0 <= k < newly@.len() ==> #[trigger] newly@[k] < m,
                        covered@.len() == m,
                        covered0.len() == m,
                        forall|x: int| 0 <= x < m ==> #[trigger] covered@[x] == (covered0[x] || newly@.take(j as int).contains(x as usize)),
                    decreases newly@.len() - j,
                {
                    let x = newly[j];
                    covered.set(x, true);
                    proof {
                        assert(newly@.take(j as int + 1) =~= newly@.take(j as int).push(x));
                        assert forall|y: int| 0 <= y < m implies #[trigger] covered@[y] == (covered0[y] || newly@.take(j as int + 1).contains(y as usize)) by {
                            if newly@.take(j as int).contains(y as usize) {
                                let h = choose|h: int| 0 <= h < j && newly@.take(j as int)[h] == y as usize;
                                assert(newly@.take(j as int + 1)[h] == y as usize);
                            }
                            if newly@.take(j as int + 1).contains(y as usize) && y != x {
                                let h = choose|h: int| 0 <= h < j + 1 && #[trigger] newly@.take(j as int + 1)[h] == y as usize;
                                assert(newly@.take(j as int)[h] == y as usize);
                            }
                            if y == x {
                                assert(newly@.take(j as int + 1)[j as int] == x);
                            }
                        }
                    }
                    j = j + 1;
                }
                proof {
                    assert(newly@.take(j as int) =~= newly@);
                }
                let ghost covered1 = covered@;
                proof {
                    // the newly covered points are exactly those `s` serves
                    assert forall|x: int| 0 <= x < m implies #[trigger] covered1[x] == (covered0[x]
                        || reduced@[x]@.contains(s)) by {
                        lemma_count_of_contains(reduced@[x]@, s);
                        lemma_count_of_contains(serves@[s as int]@, x as usize);
                        assert(count_of(serves@[s as int]@, x as usize) == count_of(reduced@[x]@, s));
                    }
                    assert(!chosen0.contains(s)) by {
                        if chosen0.contains(s) {
                            assert(covered0[t as int]);
                        }
                    }
                    assert(covered1[t as int]);
                    assert forall|k: int| 0 <= k < m && #[trigger] covered0[k] implies covered1[k] by {}
                    lemma_count_true_grows(covered0, covered1, t as int);
                    lemma_count_true_le_len(covered1);
                }
                chosen.push(s);
                proof {
                    assert forall|c: usize| chosen@.contains(c) <==> (chosen0.contains(c) || c == s) by {
                        if chosen@.contains(c) {
                            let h = choose|h: int| 0 <= h < chosen@.len() && chosen@[h] == c;
                            if h < chosen0.len() {
                                assert(chosen0[h] == c);
                            }
                        }
                        if chosen0.contains(c) {
                            let h = choose|h: int| 0 <= h < chosen0.len() && chosen0[h] == c;
                            assert(chosen@[h] == c);
                        }
                        if c == s {
                            assert(chosen@[chosen0.len() as int] == s);
                        }
                    }
                    assert forall|x: int| 0 <= x < reduced@.len() implies (#[trigger] covered@[x] <==> exists|c: usize|
                        chosen@.contains(c) && reduced@[x]@.contains(c)) by {
                        assert(covered@[x] == (covered0[x] || reduced@[x]@.contains(s)));
                        if covered@[x] {
                            if covered0[x] {
                                let c = choose|c: usize| chosen0.contains(c) && reduced@[x]@.contains(c);
                                let h = choose|h: int| 0 <= h < chosen0.len() && chosen0[h] == c;
                                assert(chosen@[h] == c);
                            } else {
                                assert(chosen@[chosen0.len() as int] == s);
                            }
                        }
                        if exists|c: usize| chosen@.contains(c) && reduced@[x]@.contains(c) {
                            let c = choose|c: usize| chosen@.contains(c) && reduced@[x]@.contains(c);
                            let h = choose|h: int| 0 <= h < chosen@.len() && chosen@[h] == c;
                            if h < chosen0.len() {
                                assert(chosen0[h] == c);
                                assert(chosen0.contains(c));
                            }
                        }
                    }
                    assert forall|a: int, c: int| 0 <= a < chosen@.len() && 0 <= c < chosen@.len() && a != c implies chosen@[a] != chosen@[c] by {
                        if a < chosen0.len() && c < chosen0.len() {
                        } else if a < chosen0.len() {
                            assert(chosen0.contains(chosen0[a]));
                        } else if c < chosen0.len() {
                            assert(chosen0.contains(chosen0[c]));
                        }
                    }
                }
                let ghost nodes_before = *nodes as int;
                let ghost best_before = *best;
                let ghost bs_before = best_set@;
                let ghost rest_b = branches_from(rows, flag@, weight@, covered0, chosen0, branches@, b as int, *best as nat, best_set@);
                proof {
                    assert(full == ((nodes_before - n0 - 1) as nat + rest_b.0, rest_b.1, rest_b.2));
                    assert forall|x: int| 0 <= x < m implies #[trigger] covered1[x] == cover_with(rows, covered0, s)[x] by {
                        assert(reduced@[x]@ == rows[x]@);
                    }
                    assert(covered1 =~= cover_with(rows, covered0, s));
                    assert(chosen@ =~= chosen0.push(s));
                    assert(branches@[b as int] == s);
                }
                let ok = search(
                    reduced,
                    serves,
                    flag,
                    weight,
                    budget,
                    fleet,
                    covered,
                    chosen,
                    best,
                    best_set,
                    nodes,
                    Ghost(rows),
                    Ghost(good),
                );
                proof {
                    let child = search_from(rows, flag@, weight@, covered1, chosen0.push(s), best_before as nat, bs_before);
                    let rest1 = branches_from(rows, flag@, weight@, covered0, chosen0, branches@, b as int + 1, child.1, child.2);
                    assert(branches_from(rows, flag@, weight@, covered0, chosen0, branches@, b as int, best_before as nat, bs_before)
                        == (child.0 + rest1.0, rest1.1, rest1.2));
                }
                chosen.pop();
                proof {
                    assert(chosen@ =~= chosen0);
                }
                let mut j: usize = 0;
                while j < newly.len()
                    invariant
                        j <= newly@.len(),
                        forall|k: int| 0 <= k < newly@.len() ==> #[trigger] newly@[k] < m,
                        forall|x: usize| newly@.contains(x) ==> x < m && !covered0[x as int],
                        covered@.len() == m,
                        covered0.len() == m,
                        forall|x: int| 0 <= x < m ==> #[trigger] covered@[x] == (covered0[x] || (newly@.contains(x as usize) && !newly@.take(j as int).contains(x as usize))),
                    decreases newly@.len() - j,
                {
                    let x = newly[j];
                    covered.set(x, false);
                    proof {
                        assert(newly@.take(j as int + 1) =~= newly@.take(j as int).push(x));
                        assert(newly@.contains(x));
                        assert forall|y: int| 0 <= y < m implies #[trigger] covered@[y] == (covered0[y] || (newly@.contains(y as usize) && !newly@.take(j as int + 1).contains(y as usize))) by {
                            if newly@.take(j as int).contains(y as usize) {
                                let h = choose|h: int| 0 <= h < j && newly@.take(j as int)[h] == y as usize;
                                assert(newly@.take(j as int + 1)[h] == y as usize);
                            }
                            if newly@.take(j as int + 1).contains(y as usize) && y != x {
                                let h = choose|h: int| 0 <= h < j + 1 && #[trigger] newly@.take(j as int + 1)[h] == y as usize;
                                assert(newly@.take(j as int)[h] == y as usize);
                            }
                            if y == x {
                                assert(newly@.take(j as int + 1)[j as int] == x);
                            }
                        }
                    }
                    j = j + 1;
                }
                proof {
                    assert(newly@.take(j as int) =~= newly@);
                    assert(covered@ =~= covered0);
                }
                if !ok {
                    proof {
                        let child = search_from(rows, flag@, weight@, covered1, chosen0.push(s), best_before as nat, bs_before);
                        assert(nodes_before + child.0 > budget);
                        assert(rest_b.0 >= child.0);
                        assert(n0 + here.0 > budget);
                    }
                    return false;
                }
                proof {
                    {
                        assert forall|tt: Seq<bool>|
                            tt.len() == fleet && #[trigger] covers_uncovered(reduced@, covered0, tt) && (exists|bb: int|
                                0 <= bb < b + 1 && tt[#[trigger] branches@[bb] as int]) implies *best <= chosen0.len()
                                + count_true(tt) by {
                            let bb = choose|bb: int| 0 <= bb < b + 1 && tt[#[trigger] branches@[bb] as int];
                            if bb == b {
                                let t2 = tt.update(s as int, false);
                                lemma_count_true_switch(tt, s as int, false);
                                assert forall|x: int| 0 <= x < reduced@.len() && !#[trigger] covered1[x] implies count_lit(
                                    reduced@[x]@,
                                    t2,
                                ) >= 1 by {
                                    assert(!reduced@[x]@.contains(s));
                                    lemma_count_of_contains(reduced@[x]@, s);
                                    assert(all_below(reduced@[x]@, fleet as int));
                                    lemma_count_lit_switch_off(reduced@[x]@, tt, s);
                                    assert(!covered0[x]);
                                }
                                assert(covers_uncovered(reduced@, covered1, t2));
                            }
                        }
                    }
                }
                b = b + 1;
            }
            proof {
                {
                    assert forall|tt: Seq<bool>|
                        tt.len() == fleet && #[trigger] covers_uncovered(reduced@, covered0, tt) implies *best <= chosen0.len()
                            + count_true(tt) by {
                        assert(count_lit(reduced@[t as int]@, tt) >= 1);
                        let j = lemma_count_lit_witness(reduced@[t as int]@, tt);
                        let x = reduced@[t as int]@[j];
                        assert(reduced@[t as int]@.contains(x));
                        assert(branches@.contains(x));
                        let bb = choose|bb: int| 0 <= bb < branches@.len() && branches@[bb] == x;
                        assert(tt[branches@[bb] as int]);
                    }
                }
            }
            return true;
        },
    }
}

/// `active` is a smallest single-coverage plan: `lit` satellites of a fleet of
/// `fleet`, serving every point (when no point lists a satellite twice), and
/// no plan serving every point lights fewer.
pub open spec fn minimum_single_cover(
    covering: Seq<Vec<usize>>,
    fleet: usize,
    active: Seq<bool>,
    lit: usize,
) -> bool {
    &&& active.len() == fleet
    &&& lit == count_true(active)
    &&& no_repeats(covering) ==> covers(covering, active, 1)
    &&& forall|other: Seq<bool>|
        other.len() == fleet && #[trigger] covers(covering, other, 1) ==> lit <= count_true(other)
}

fn exact_min_cover_inner(
    covering: &[Vec<usize>],
    fleet: usize,
    previous: Option<&[bool]>,
    node_budget: u64,
) -> (r: Option<ActivationPlan>)
    requires
        in_fleet(covering@, fleet as int),
    ensures
        r is None <==> some_point_unserved(covering@) || search_nodes(covering@, fleet, previous) > node_budget,
        r matches Some(plan) ==> {
            &&& plan.lit == exact_lit(covering@, fleet, previous)
            &&& plan.active@ == flags_of(exact_set(covering@, fleet, previous), fleet as nat)
            &&& minimum_single_cover(covering@, fleet, plan.active@, plan.lit)
            &&& plan.unservable@.len() == 0
        },
{
    let n = covering.len();
    let ghost good = no_repeats(covering@);
    let mut p: usize = 0;
    while p < n
        invariant
            p <= n,
            n == covering@.len(),
            forall|q: int| 0 <= q < p ==> (#[trigger] covering@[q])@.len() > 0,
        decreases n - p,
    {
        if covering[p].len() == 0 {
            // an unservable point; the caller must handle it
            assert(some_point_unserved(covering@)) by {
                assert(covering@[p as int]@.len() == 0);
            }
            return None;
        }
        p = p + 1;
    }
    // Drop any point whose covering set is a superset of another's: serving
    // the tighter point always serves the looser one.
    let mut keep: Vec<usize> = Vec::new();
    let mut p: usize = 0;
    while p < n
        invariant
            p <= n,
            n == covering@.len(),
            forall|k: int| 0 <= k < keep@.len() ==> #[trigger] keep@[k] < p,
            forall|q: usize| keep@.contains(q) <==> (q < p && undominated(covering@, q as int)),
            keep@.len() <= p,
            keep@ == kept_upto(covering@, p as int),
        decreases n - p,
    {
        let mut dominated = false;
        let mut q: usize = 0;
        while q < n
            invariant
                q <= n,
                p < n,
                n == covering@.len(),
                dominated ==> exists|d: int| #[trigger] dominates(covering@, d, p as int),
                !dominated ==> forall|d: int| 0 <= d < q ==> !#[trigger] dominates(covering@, d, p as int),
            decreases n - q,
        {
            let lq = covering[q].len();
            let lp = covering[p].len();
            if q != p && lq <= lp && (lq < lp || q < p) && list_subset(&covering[q], &covering[p]) {
                dominated = true;
                assert(dominates(covering@, q as int, p as int));
            }
            q = q + 1;
        }
        proof {
            if !dominated {
                assert forall|d: int| !#[trigger] dominates(covering@, d, p as int) by {
                    if 0 <= d < n {
                    }
                }
            }
        }
        if !dominated {
            let ghost old_keep = keep@;
            keep.push(p);
            proof {
                assert forall|q: usize| keep@.contains(q) <==> (q < p + 1 && undominated(covering@, q as int)) by {
                    if keep@.contains(q) {
                        let k = choose|k: int| 0 <= k < keep@.len() && keep@[k] == q;
                        if k < old_keep.len() {
                            assert(old_keep[k] == q);
                            assert(old_keep.contains(q));
                        }
                    }
                    if q < p && undominated(covering@, q as int) {
                        assert(old_keep.contains(q));
                        let k = choose|k: int| 0 <= k < old_keep.len() && old_keep[k] == q;
                        assert(keep@[k] == q);
                    }
                    if q == p && undominated(covering@, q as int) {
                        assert(keep@[old_keep.len() as int] == q);
                    }
                }
            }
        } else {
            proof {
                assert forall|q: usize| keep@.contains(q) <==> (q < p + 1 && undominated(covering@, q as int)) by {
                    if keep@.contains(q) {
                        let k = choose|k: int| 0 <= k < keep@.len() && keep@[k] == q;
                        assert(keep@[k] < p);
                    }
                    if q == p {
                        let d = choose|d: int| #[trigger] dominates(covering@, d, p as int);
                        assert(!undominated(covering@, q as int));
                    }
                }
            }
        }
        p = p + 1;
    }
    let mut reduced: Vec<Vec<usize>> = Vec::new();
    let mut k: usize = 0;
    while k < keep.len()
        invariant
            k <= keep@.len(),
            n == covering@.len(),
            forall|j: int| 0 <= j < keep@.len() ==> #[trigger] keep@[j] < n,
            reduced@.len() == k,
            forall|j: int| 0 <= j < k ==> (#[trigger] reduced@[j])@ == covering@[keep@[j] as int]@,
            keep@ == kept_upto(covering@, n as int),
        decreases keep@.len() - k,
    {
        let row = copy_vec(&covering[keep[k]]);
        reduced.push(row);
        k = k + 1;
    }
    let m = reduced.len();
    let ghost rows = kept_rows(covering@);
    proof {
        assert(same_views(reduced@, rows));
        assert forall|j: int| 0 <= j < m implies all_below(#[trigger] reduced@[j]@, fleet as int) by {
            assert(all_below(covering@[keep@[j] as int]@, fleet as int));
        }
        assert forall|j: int| 0 <= j < m implies (#[trigger] reduced@[j])@.len() > 0 by {
            assert(covering@[keep@[j] as int]@.len() > 0);
        }
    }
    let serves = build_serves(reduced.as_slice(), fleet);
    // Branch order: try satellites that were already lit first, then the ones
    // serving most points. Good incumbents appear early, and among equally
    // small covers the search settles on one that reuses the previous plan.
    let mut flag: Vec<bool> = Vec::new();
    let mut weight: Vec<usize> = Vec::new();
    let mut s: usize = 0;
    while s < fleet
        invariant
            s <= fleet,
            serves@.len() == fleet,
            serves_matches(serves@, reduced@),
            same_views(reduced@, rows),
            m == reduced@.len(),
            flag@.len() == s,
            weight@.len() == s,
            forall|x: int| 0 <= x < s ==> #[trigger] flag@[x] == !was_lit(previous, x),
            forall|x: int| 0 <= x < s ==> #[trigger] weight@[x] == (usize::MAX - listings(rows, x as usize)) as usize,
        decreases fleet - s,
    {
        proof {
            assert(all_below(serves@[s as int]@, m as int));
            lemma_count_sum_len(serves@[s as int]@, m as int);
            assert forall|q: int| 0 <= q < rows.len() implies #[trigger] count_of(serves@[s as int]@, q as usize)
                == count_of(rows[q]@, s) by {
                assert(reduced@[q]@ == rows[q]@);
                assert(count_of(serves@[s as int]@, q as usize) == count_of(reduced@[q as usize as int]@, s));
            }
            lemma_count_sum_is_listings(rows, s, serves@[s as int]@, m as int);
        }
        flag.push(!was_on(previous, s));
        weight.push(usize::MAX - serves[s].len());
        s = s + 1;
    }
    assert(flag@ =~= dark_before(previous, fleet as nat));
    assert(weight@ =~= listing_weights(rows, fleet as nat));
    let seed = select_active(covering, fleet, 1, previous);
    let mut best: usize = seed.lit;
    let mut best_set: Vec<usize> = Vec::new();
    let mut s: usize = 0;
    while s < fleet
        invariant
            s <= fleet,
            seed.active@.len() == fleet,
            best_set@.len() == count_true(seed.active@.take(s as int)),
            forall|j: int| 0 <= j < best_set@.len() ==> #[trigger] best_set@[j] < s,
            best_set@.no_duplicates(),
            forall|x: usize| best_set@.contains(x) <==> (x < s && seed.active@[x as int]),
            best_set@ == lit_upto(seed.active@, s as int),
        decreases fleet - s,
    {
        proof {
            lemma_count_true_take(seed.active@, s as int);
        }
        if seed.active[s] {
            let ghost old_set = best_set@;
            best_set.push(s);
            proof {
                assert forall|x: usize| best_set@.contains(x) <==> (x < s + 1 && seed.active@[x as int]) by {
                    if best_set@.contains(x) {
                        let j = choose|j: int| 0 <= j < best_set@.len() && best_set@[j] == x;
                        if j < old_set.len() {
                            assert(old_set[j] == x);
                            assert(old_set.contains(x));
                        }
                    }
                    if x < s && seed.active@[x as int] {
                        assert(old_set.contains(x));
                        let j = choose|j: int| 0 <= j < old_set.len() && old_set[j] == x;
                        assert(best_set@[j] == x);
                    }
                    if x == s {
                        assert(best_set@[old_set.len() as int] == x);
                    }
                }
                assert forall|a: int, b: int| 0 <= a < best_set@.len() && 0 <= b < best_set@.len() && a != b implies best_set@[a] != best_set@[b] by {
                    if a < old_set.len() && b < old_set.len() {
                        assert(old_set[a] != old_set[b]);
                    } else if a < old_set.len() {
                        assert(old_set[a] < s);
                    } else if b < old_set.len() {
                        assert(old_set[b] < s);
                    }
                }
            }
        } else {
            proof {
                assert forall|x: usize| best_set@.contains(x) <==> (x < s + 1 && seed.active@[x as int]) by {
                    if best_set@.contains(x) {
                        let j = choose|j: int| 0 <= j < best_set@.len() && best_set@[j] == x;
                        assert(best_set@[j] < s);
                    }
                }
            }
        }
        s = s + 1;
    }
    proof {
        assert(seed.active@.take(fleet as int) =~= seed.active@);
    }
    assert(good ==> list_covers(reduced@, best_set@)) by {
        if good {
            assert forall|k: int| 0 <= k < reduced@.len() implies #[trigger] has_picked_server(reduced@[k]@, best_set@) by {
                let pt = keep@[k] as int;
                assert(count_lit(covering@[pt]@, seed.active@) >= required(covering@[pt]@.len(), 1));
                let j = lemma_count_lit_witness(covering@[pt]@, seed.active@);
                let c = covering@[pt]@[j];
                assert(all_below(covering@[pt]@, fleet as int));
                assert(best_set@.contains(c));
                assert(reduced@[k]@.contains(c));
                assert(picked_server(reduced@[k]@, best_set@, c));
            }
            assert(list_covers(reduced@, best_set@));
        }
    }
    let mut covered: Vec<bool> = Vec::new();
    let mut k: usize = 0;
    while k < m
        invariant
            k <= m,
            covered@.len() == k,
            forall|j: int| 0 <= j < k ==> !#[trigger] covered@[j],
        decreases m - k,
    {
        covered.push(false);
        k = k + 1;
    }
    let mut chosen: Vec<usize> = Vec::new();
    let mut nodes: u64 = 0;
    assert(best_set@.len() == best);
    assert(forall|j: int| 0 <= j < best_set@.len() ==> #[trigger] best_set@[j] < fleet);
    assert(good ==> list_covers(reduced@, best_set@));
    assert(covered_matches(reduced@, covered@, chosen@));
    let ghost covered_start = covered@;
    proof {
        assert(covered@ =~= Seq::new(rows.len(), |i: int| false));
        assert(chosen@ =~= Seq::<usize>::empty());
        assert(best_set@ == lit_upto(greedy_plan(covering@, fleet, previous), fleet as int));
    }
    let finished = search(
        &reduced,
        &serves,
        &flag,
        &weight,
        node_budget,
        fleet,
        &mut covered,
        &mut chosen,
        &mut best,
        &mut best_set,
        &mut nodes,
        Ghost(rows),
        Ghost(good),
    );
    proof {
        lemma_count_true_all_dark(covered_start);
        assert(!some_point_unserved(covering@)) by {
            if some_point_unserved(covering@) {
                let p = choose|p: int| 0 <= p < covering@.len() && (#[trigger] covering@[p])@.len() == 0;
                assert(covering@[p]@.len() > 0);
            }
        }
    }
    if !finished {
        return None;
    }
    let mut active = dark_fleet(fleet);
    proof {
        lemma_count_true_all_dark(active@);
    }
    let mut k: usize = 0;
    while k < best_set.len()
        invariant
            k <= best_set@.len(),
            active@.len() == fleet,
            best_set@.no_duplicates(),
            forall|j: int| 0 <= j < best_set@.len() ==> #[trigger] best_set@[j] < fleet,
            count_true(active@) == k,
            forall|x: int| 0 <= x < fleet ==> (#[trigger] active@[x] <==> best_set@.take(k as int).contains(x as usize)),
        decreases best_set@.len() - k,
    {
        let c = best_set[k];
        proof {
            assert(!best_set@.take(k as int).contains(c)) by {
                if best_set@.take(k as int).contains(c) {
                    let j = choose|j: int| 0 <= j < k && best_set@.take(k as int)[j] == c;
                    assert(best_set@[j] == best_set@[k as int]);
                }
            }
            lemma_count_true_switch(active@, c as int, true);
            assert(best_set@.take(k as int + 1) =~= best_set@.take(k as int).push(c));
        }
        active.set(c, true);
        proof {
            assert forall|x: int| 0 <= x < fleet implies (#[trigger] active@[x] <==> best_set@.take(k as int + 1).contains(x as usize)) by {
                if best_set@.take(k as int).contains(x as usize) {
                    let j = choose|j: int| 0 <= j < k && best_set@.take(k as int)[j] == x as usize;
                    assert(best_set@.take(k as int + 1)[j] == x as usize);
                }
                if best_set@.take(k as int + 1).contains(x as usize) && x != c {
                    let j = choose|j: int| 0 <= j < k + 1 && #[trigger] best_set@.take(k as int + 1)[j] == x as usize;
                    assert(best_set@.take(k as int)[j] == x as usize);
                }
                if x == c {
                    assert(best_set@.take(k as int + 1)[k as int] == c);
                }
            }
        }
        k = k + 1;
    }
    proof {
        assert(best_set@.take(k as int) =~= best_set@);
        assert(active@ =~= flags_of(best_set@, fleet as nat));
        if good {
            assert forall|pt: int| 0 <= pt < covering@.len() implies count_lit(#[trigger] covering@[pt]@, active@)
                >= required(covering@[pt]@.len(), 1) by {
                let q = lemma_undominated_below(covering@, pt);
                assert(keep@.contains(q as usize));
                let kk = choose|kk: int| 0 <= kk < keep@.len() && keep@[kk] == q as usize;
                assert(reduced@[kk]@ == covering@[q]@);
                assert(has_picked_server(reduced@[kk]@, best_set@));
                let c = choose|c: usize| #[trigger] picked_server(reduced@[kk]@, best_set@, c);
                let j = choose|j: int| 0 <= j < covering@[q]@.len() && covering@[q]@[j] == c;
                assert(covering@[pt]@.contains(covering@[q]@[j]));
                let h = choose|h: int| 0 <= h < covering@[pt]@.len() && covering@[pt]@[h] == c;
                let bi = choose|bi: int| 0 <= bi < best_set@.len() && best_set@[bi] == c;
                assert(active@[c as int]);
                lemma_count_lit_lit_entry(covering@[pt]@, active@, h);
            }
        }
        {
            assert forall|other: Seq<bool>| other.len() == fleet && #[trigger] covers(covering@, other, 1) implies best
                <= count_true(other) by {
                assert forall|i: int| 0 <= i < reduced@.len() && !#[trigger] covered_start[i] implies count_lit(
                    reduced@[i]@,
                    other,
                ) >= 1 by {
                    let pt = keep@[i] as int;
                    assert(count_lit(covering@[pt]@, other) >= required(covering@[pt]@.len(), 1));
                }
                assert(covers_uncovered(reduced@, covered_start, other));
            }
        }
    }
    Some(ActivationPlan { active, lit: best, unservable: Vec::new() })
}

/// The provably smallest activation set for single coverage, or `None` if
/// some point has no server at all or the search needs more than
/// `node_budget` nodes to finish.
///
/// The search starts from the greedy plan of [`select_active`], branches over
/// the servers of the most constrained uncovered point (satellites lit in
/// `previous` first, then those serving most points, so that among equally
/// small covers it settles on one that reuses the previous plan) and prunes
/// with [`cover_lower_bound`].
pub fn exact_activation(
    covering: &[Vec<usize>],
    fleet: usize,
    previous: Option<&[bool]>,
    node_budget: u64,
) -> (r: Option<ActivationPlan>)
    requires
        in_fleet(covering@, fleet as int),
    ensures
        r is None <==> some_point_unserved(covering@) || search_nodes(covering@, fleet, previous) > node_budget,
        r matches Some(plan) ==> {
            &&& exact_outcome(covering@, fleet, previous, node_budget as nat) == Some(
                (plan.lit as nat, plan.active@),
            )
            &&& minimum_single_cover(covering@, fleet, plan.active@, plan.lit)
            &&& plan.unservable@.len() == 0
            // Never more than the greedy plan of `select_active` at single coverage.
            &&& plan.lit <= count_true(greedy_plan(covering@, fleet, previous))
        },
{
    proof {
        lemma_exact_never_exceeds_greedy(covering@, fleet, previous);
    }
    exact_min_cover_inner(covering, fleet, previous, node_budget)
}

/// Size of the provably smallest single-coverage activation set, or `None` if
/// some point has no server or the search needs more than `node_budget`
/// nodes.
pub fn exact_min_cover(covering: &[Vec<usize>], fleet: usize, node_budget: u64) -> (r: Option<usize>)
    requires
        in_fleet(covering@, fleet as int),
    ensures
        r is None <==> some_point_unserved(covering@) || search_nodes(covering@, fleet, None) > node_budget,
        r matches Some(lit) ==> {
            &&& lit == exact_lit(covering@, fleet, None)
            &&& exists|active: Seq<bool>| #[trigger] minimum_single_cover(covering@, fleet, active, lit)
        },
{
    match exact_min_cover_inner(covering, fleet, None, node_budget) {
        Some(plan) => {
            assert(minimum_single_cover(covering@, fleet, plan.active@, plan.lit));
            assert(exists|active: Seq<bool>| #[trigger] minimum_single_cover(covering@, fleet, active, plan.lit));
            let out: Option<usize> = Some(plan.lit);
            assert(out->0 == plan.lit);
            assert(exists|a: Seq<bool>| #[trigger] minimum_single_cover(covering@, fleet, a, out->0));
            out
        },
        None => None,
    }
}

} // verus!
