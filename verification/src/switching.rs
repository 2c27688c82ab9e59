//! Why smoothing never costs a switch: closing a short gap removes the two
//! transitions around it, and lighting a satellite early only moves the
//! moment it switches on.

use vstd::prelude::*;
use crate::schedule::{column, diff_count, in_short_gap, lazy_lit, smoothed_lit, switch_total};

verus! {

/// `f(lo) + ... + f(hi - 1)`.
pub open spec fn sum_over(f: spec_fn(int) -> nat, lo: int, hi: int) -> nat
    decreases hi - lo,
{
    if hi <= lo {
        0
    } else {
        sum_over(f, lo, hi - 1) + f(hi - 1)
    }
}

/// 1 where `x` changes between steps `i` and `i + 1`.
pub open spec fn flips(x: Seq<bool>) -> spec_fn(int) -> nat {
    |i: int| if 0 <= i && i + 1 < x.len() && x[i] != x[i + 1] { 1nat } else { 0nat }
}

/// 1 where `x` switches on between steps `i` and `i + 1`.
pub open spec fn ups(x: Seq<bool>) -> spec_fn(int) -> nat {
    |i: int| if 0 <= i && i + 1 < x.len() && !x[i] && x[i + 1] { 1nat } else { 0nat }
}

/// 1 where `x` switches off between steps `i` and `i + 1`.
pub open spec fn downs(x: Seq<bool>) -> spec_fn(int) -> nat {
    |i: int| if 0 <= i && i + 1 < x.len() && x[i] && !x[i + 1] { 1nat } else { 0nat }
}

/// On/off transitions of one satellite across a schedule.
pub open spec fn transitions(x: Seq<bool>) -> nat {
    sum_over(flips(x), 0, x.len() as int)
}

proof fn lemma_sum_mono(f: spec_fn(int) -> nat, g: spec_fn(int) -> nat, lo: int, hi: int)
    requires
        forall|i: int| lo <= i < hi ==> #[trigger] f(i) <= g(i),
    ensures
        sum_over(f, lo, hi) <= sum_over(g, lo, hi),
    decreases hi - lo,
{
    if hi > lo {
        lemma_sum_mono(f, g, lo, hi - 1);
    }
}

proof fn lemma_sum_add(f: spec_fn(int) -> nat, g: spec_fn(int) -> nat, h: spec_fn(int) -> nat, lo: int, hi: int)
    requires
        forall|i: int| lo <= i < hi ==> #[trigger] h(i) == f(i) + g(i),
    ensures
        sum_over(h, lo, hi) == sum_over(f, lo, hi) + sum_over(g, lo, hi),
    decreases hi - lo,
{
    if hi > lo {
        lemma_sum_add(f, g, h, lo, hi - 1);
    }
}

proof fn lemma_sum_ext(f: spec_fn(int) -> nat, g: spec_fn(int) -> nat, lo: int, hi: int)
    requires
        forall|i: int| lo <= i < hi ==> #[trigger] f(i) == g(i),
    ensures
        sum_over(f, lo, hi) == sum_over(g, lo, hi),
    decreases hi - lo,
{
    if hi > lo {
        lemma_sum_ext(f, g, lo, hi - 1);
    }
}

proof fn lemma_sum_split(f: spec_fn(int) -> nat, lo: int, mid: int, hi: int)
    requires
        lo <= mid <= hi,
    ensures
        sum_over(f, lo, hi) == sum_over(f, lo, mid) + sum_over(f, mid, hi),
    decreases hi - mid,
{
    if hi > mid {
        lemma_sum_split(f, lo, mid, hi - 1);
    }
}

proof fn lemma_sum_shift(g: spec_fn(int) -> nat, f: spec_fn(int) -> nat, w: int, lo: int, hi: int)
    requires
        forall|i: int| lo <= i < hi ==> #[trigger] f(i) == g(i + w),
    ensures
        sum_over(f, lo, hi) == sum_over(g, lo + w, hi + w),
    decreases hi - lo,
{
    if hi > lo {
        lemma_sum_shift(g, f, w, lo, hi - 1);
    }
}

proof fn lemma_sum_zero(f: spec_fn(int) -> nat, lo: int, hi: int)
    requires
        forall|i: int| lo <= i < hi ==> #[trigger] f(i) == 0,
    ensures
        sum_over(f, lo, hi) == 0,
    decreases hi - lo,
{
    if hi > lo {
        lemma_sum_zero(f, lo, hi - 1);
    }
}

/// Transitions are the switch-ons plus the switch-offs.
proof fn lemma_transitions_split(x: Seq<bool>)
    ensures
        transitions(x) == sum_over(ups(x), 0, x.len() as int) + sum_over(downs(x), 0, x.len() as int),
{
    lemma_sum_add(ups(x), downs(x), flips(x), 0, x.len() as int);
}

/// Lazy off never adds a transition at any step boundary.
proof fn lemma_lazy_flips(c: Seq<bool>, min_off: int, i: int)
    requires
        0 <= i,
        i + 1 < c.len(),
    ensures
        flips(Seq::new(c.len(), |k: int| lazy_lit(c, k, min_off)))(i) <= flips(c)(i),
{
    let l = Seq::new(c.len(), |k: int| lazy_lit(c, k, min_off));
    if c[i] == c[i + 1] && !c[i] {
        if in_short_gap(c, i, min_off) {
            let (a, b) = choose|a: int, b: int|
                #![trigger c[a], c[b]]
                0 <= a < i < b < c.len() && c[a] && c[b] && b - a - 1 < min_off && (forall|k: int|
                    a < k < b ==> !#[trigger] c[k]);
            if b == i + 1 {
                assert(c[b]);
            }
            assert(in_short_gap(c, i + 1, min_off));
        }
        if in_short_gap(c, i + 1, min_off) {
            let (a, b) = choose|a: int, b: int|
                #![trigger c[a], c[b]]
                0 <= a < i + 1 < b < c.len() && c[a] && c[b] && b - a - 1 < min_off && (forall|k: int|
                    a < k < b ==> !#[trigger] c[k]);
            if a == i {
                assert(c[a]);
            }
            assert(in_short_gap(c, i, min_off));
        }
        assert(l[i] == l[i + 1]);
    }
}

/// Lighting early never adds a switch-off at any step boundary.
proof fn lemma_warm_downs(l: Seq<bool>, warm: Seq<bool>, w: int, i: int)
    requires
        0 <= w,
        warm.len() == l.len(),
        forall|k: int|
            0 <= k < l.len() ==> #[trigger] warm[k] == (l[k] || exists|j: int|
                k < j <= k + w && j < l.len() && #[trigger] l[j]),
        0 <= i,
        i + 1 < l.len(),
    ensures
        downs(warm)(i) <= downs(l)(i),
{
    if warm[i] && !warm[i + 1] {
        assert(warm[i + 1] == (l[i + 1] || exists|j: int| i + 1 < j <= i + 1 + w && j < l.len() && #[trigger] l[j]));
        if !l[i] {
            let j = choose|j: int| i < j <= i + w && j < l.len() && #[trigger] l[j];
            if j > i + 1 {
                assert(i + 1 < j <= i + 1 + w && j < l.len() && l[j]);
            }
        }
    }
}

/// Lighting early moves a switch-on `w` steps earlier, never adds one.
proof fn lemma_warm_ups(l: Seq<bool>, warm: Seq<bool>, w: int, i: int)
    requires
        0 <= w,
        warm.len() == l.len(),
        forall|k: int|
            0 <= k < l.len() ==> #[trigger] warm[k] == (l[k] || exists|j: int|
                k < j <= k + w && j < l.len() && #[trigger] l[j]),
        0 <= i,
        i + 1 < l.len(),
    ensures
        ups(warm)(i) <= ups(l)(i + w),
{
    if !warm[i] && warm[i + 1] {
        assert(!l[i]);
        assert(forall|j: int| i < j <= i + w && j < l.len() ==> !#[trigger] l[j]);
        if !l[i + 1] {
            let j = choose|j: int| i + 1 < j <= i + 1 + w && j < l.len() && #[trigger] l[j];
            if j < i + 1 + w {
                assert(i < j <= i + w);
            }
            assert(j == i + 1 + w);
            if w > 0 {
                assert(!l[i + w]);
            }
        } else {
            if w > 0 {
                assert(i < i + 1 <= i + w);
            }
        }
    }
}

/// Smoothing one satellite's flags never adds a transition.
pub proof fn lemma_smoothing_column(c: Seq<bool>, warmup: int, min_off: int)
    requires
        0 <= warmup,
    ensures
        transitions(Seq::new(c.len(), |i: int| smoothed_lit(c, i, warmup, min_off))) <= transitions(c),
{
    let n = c.len() as int;
    let l = Seq::new(c.len(), |k: int| lazy_lit(c, k, min_off));
    let warm = Seq::new(c.len(), |i: int| smoothed_lit(c, i, warmup, min_off));
    assert forall|k: int| 0 <= k < l.len() implies #[trigger] warm[k] == (l[k] || exists|j: int|
        k < j <= k + warmup && j < l.len() && #[trigger] l[j]) by {
        if exists|j: int| k < j <= k + warmup && j < c.len() && #[trigger] lazy_lit(c, j, min_off) {
            let j = choose|j: int| k < j <= k + warmup && j < c.len() && #[trigger] lazy_lit(c, j, min_off);
            assert(l[j]);
        }
        if exists|j: int| k < j <= k + warmup && j < l.len() && #[trigger] l[j] {
            let j = choose|j: int| k < j <= k + warmup && j < l.len() && #[trigger] l[j];
            assert(lazy_lit(c, j, min_off));
        }
    }
    // Lazy off: pointwise.
    assert forall|i: int| 0 <= i < n implies #[trigger] flips(l)(i) <= flips(c)(i) by {
        if i + 1 < n {
            lemma_lazy_flips(c, min_off, i);
        }
    }
    lemma_sum_mono(flips(l), flips(c), 0, n);
    // Warm start: switch-offs pointwise, switch-ons shifted.
    assert forall|i: int| 0 <= i < n implies #[trigger] downs(warm)(i) <= downs(l)(i) by {
        if i + 1 < n {
            lemma_warm_downs(l, warm, warmup, i);
        }
    }
    lemma_sum_mono(downs(warm), downs(l), 0, n);
    let shifted = |i: int| ups(l)(i + warmup);
    assert forall|i: int| 0 <= i < n implies #[trigger] ups(warm)(i) <= shifted(i) by {
        if i + 1 < n {
            lemma_warm_ups(l, warm, warmup, i);
        }
    }
    lemma_sum_mono(ups(warm), shifted, 0, n);
    lemma_sum_shift(ups(l), shifted, warmup, 0, n);
    if warmup <= n {
        lemma_sum_split(ups(l), warmup, n, n + warmup);
        lemma_sum_split(ups(l), 0, warmup, n);
        lemma_sum_zero(ups(l), n, n + warmup);
    } else {
        lemma_sum_zero(ups(l), warmup, n + warmup);
    }
    assert(sum_over(ups(warm), 0, n) <= sum_over(ups(l), 0, n));
    lemma_transitions_split(warm);
    lemma_transitions_split(l);
}

/// Rows `0..m-1`, each compared with the next over its first `f` flags.
pub open spec fn leading_flips(x: Seq<Vec<bool>>, f: int, m: int) -> nat {
    sum_over(|i: int| diff_count(x[i]@, x[i + 1]@, f), 0, m - 1)
}

/// Flags `lo..hi` that differ between `a` and `b`.
pub open spec fn diff_between(a: Seq<bool>, b: Seq<bool>, lo: int, hi: int) -> nat
    decreases hi - lo,
{
    if hi <= lo {
        0
    } else {
        diff_between(a, b, lo, hi - 1) + if a[hi - 1] != b[hi - 1] {
            1nat
        } else {
            0nat
        }
    }
}

proof fn lemma_diff_count_split(a: Seq<bool>, b: Seq<bool>, f: int, n: int)
    requires
        0 <= f <= n,
    ensures
        diff_count(a, b, n) == diff_count(a, b, f) + diff_between(a, b, f, n),
    decreases n - f,
{
    if n > f {
        lemma_diff_count_split(a, b, f, n - 1);
    }
}

proof fn lemma_diff_between_ext(a: Seq<bool>, b: Seq<bool>, c: Seq<bool>, d: Seq<bool>, lo: int, hi: int)
    requires
        forall|t: int| lo <= t < hi ==> #[trigger] a[t] == c[t] && b[t] == d[t],
    ensures
        diff_between(a, b, lo, hi) == diff_between(c, d, lo, hi),
    decreases hi - lo,
{
    if hi > lo {
        lemma_diff_between_ext(a, b, c, d, lo, hi - 1);
    }
}

proof fn lemma_switch_total_sum(x: Seq<Vec<bool>>, m: int)
    ensures
        switch_total(x, m) == sum_over(|i: int| diff_count(x[i]@, x[i + 1]@, x[i]@.len() as int), 0, m - 1),
    decreases m,
{
    if m > 1 {
        lemma_switch_total_sum(x, m - 1);
    }
}

/// Comparing consecutive rows over the first `f` flags counts, satellite by
/// satellite, each satellite's transitions.
proof fn lemma_leading_flips_by_column(x: Seq<Vec<bool>>, f: int)
    requires
        0 <= f,
        forall|i: int| 0 <= i < x.len() ==> (#[trigger] x[i])@.len() >= f,
    ensures
        leading_flips(x, f, x.len() as int) == sum_over(|s: int| transitions(column(x, s)), 0, f),
    decreases f,
{
    let n = x.len() as int;
    if f > 0 {
        lemma_leading_flips_by_column(x, f - 1);
        let prev = |i: int| diff_count(x[i]@, x[i + 1]@, f - 1);
        let last = flips(column(x, f - 1));
        let now = |i: int| diff_count(x[i]@, x[i + 1]@, f);
        assert forall|i: int| 0 <= i < n - 1 implies #[trigger] now(i) == prev(i) + last(i) by {
            assert(column(x, f - 1)[i] == x[i]@[f - 1]);
            assert(column(x, f - 1)[i + 1] == x[i + 1]@[f - 1]);
        }
        lemma_sum_add(prev, last, now, 0, n - 1);
        if n >= 1 {
            lemma_sum_split(last, 0, n - 1, n);
            assert(last(n - 1) == 0);
        }
        assert(sum_over(last, 0, n) == transitions(column(x, f - 1)));
    } else {
        lemma_sum_zero(|i: int| diff_count(x[i]@, x[i + 1]@, f), 0, n - 1);
    }
}

/// Smoothing never adds a switch: a schedule that agrees with `plans` past
/// the first row's flags, and holds the smoothed flags before them, costs no
/// more transitions than `plans`.
pub proof fn lemma_smoothing_never_adds_switches(
    plans: Seq<Vec<bool>>,
    out: Seq<Vec<bool>>,
    warmup: int,
    min_off: int,
)
    requires
        0 <= warmup,
        plans.len() > 0,
        out.len() == plans.len(),
        forall|i: int| 0 <= i < plans.len() ==> (#[trigger] plans[i])@.len() >= plans[0]@.len(),
        forall|i: int| 0 <= i < plans.len() - 1 ==> (#[trigger] plans[i + 1])@.len() >= plans[i]@.len(),
        forall|i: int| 0 <= i < plans.len() ==> (#[trigger] out[i])@.len() == plans[i]@.len(),
        forall|i: int, t: int|
            0 <= i < plans.len() && plans[0]@.len() <= t < plans[i]@.len() ==> #[trigger] out[i]@[t]
                == plans[i]@[t],
        forall|i: int, s: int|
            0 <= i < plans.len() && 0 <= s < plans[0]@.len() ==> #[trigger] out[i]@[s] == smoothed_lit(
                column(plans, s),
                i,
                warmup,
                min_off,
            ),
    ensures
        switch_total(out, out.len() as int) <= switch_total(plans, plans.len() as int),
{
    let n = plans.len() as int;
    let f = plans[0]@.len() as int;
    lemma_switch_total_sum(out, n);
    lemma_switch_total_sum(plans, n);
    let whole_out = |i: int| diff_count(out[i]@, out[i + 1]@, out[i]@.len() as int);
    let whole_plans = |i: int| diff_count(plans[i]@, plans[i + 1]@, plans[i]@.len() as int);
    let lead_out = |i: int| diff_count(out[i]@, out[i + 1]@, f);
    let lead_plans = |i: int| diff_count(plans[i]@, plans[i + 1]@, f);
    let tail_out = |i: int| diff_between(out[i]@, out[i + 1]@, f, out[i]@.len() as int);
    let tail_plans = |i: int| diff_between(plans[i]@, plans[i + 1]@, f, plans[i]@.len() as int);
    assert forall|i: int| 0 <= i < n - 1 implies #[trigger] whole_out(i) == lead_out(i) + tail_out(i) by {
        lemma_diff_count_split(out[i]@, out[i + 1]@, f, out[i]@.len() as int);
    }
    assert forall|i: int| 0 <= i < n - 1 implies #[trigger] whole_plans(i) == lead_plans(i) + tail_plans(i) by {
        lemma_diff_count_split(plans[i]@, plans[i + 1]@, f, plans[i]@.len() as int);
    }
    lemma_sum_add(lead_out, tail_out, whole_out, 0, n - 1);
    lemma_sum_add(lead_plans, tail_plans, whole_plans, 0, n - 1);
    // Past the first row's flags nothing changed.
    assert forall|i: int| 0 <= i < n - 1 implies #[trigger] tail_out(i) == tail_plans(i) by {
        assert forall|t: int| f <= t < out[i]@.len() implies #[trigger] out[i]@[t] == plans[i]@[t]
            && out[i + 1]@[t] == plans[i + 1]@[t] by {
            assert(plans[i + 1]@.len() >= plans[i]@.len());
        }
        lemma_diff_between_ext(out[i]@, out[i + 1]@, plans[i]@, plans[i + 1]@, f, out[i]@.len() as int);
    }
    lemma_sum_ext(tail_out, tail_plans, 0, n - 1);
    // Before them, column by column.
    assert forall|i: int| 0 <= i < out.len() implies (#[trigger] out[i])@.len() >= f by {
        assert(plans[i]@.len() >= f);
    }
    lemma_leading_flips_by_column(out, f);
    lemma_leading_flips_by_column(plans, f);
    let col_out = |s: int| transitions(column(out, s));
    let col_plans = |s: int| transitions(column(plans, s));
    assert forall|s: int| 0 <= s < f implies #[trigger] col_out(s) <= col_plans(s) by {
        let c = column(plans, s);
        assert(column(out, s) =~= Seq::new(c.len(), |i: int| smoothed_lit(c, i, warmup, min_off)));
        lemma_smoothing_column(c, warmup, min_off);
    }
    lemma_sum_mono(col_out, col_plans, 0, f);
}

} // verus!
