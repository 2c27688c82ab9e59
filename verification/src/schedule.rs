//! Smoothing a run of per-step activation plans into a schedule a spacecraft
//! can fly, and counting what a schedule costs in switching.

use vstd::prelude::*;
use crate::switching::lemma_smoothing_never_adds_switches;

verus! {

/// Flag of satellite `s` across every step of a schedule.
pub open spec fn column(plans: Seq<Vec<bool>>, s: int) -> Seq<bool> {
    Seq::new(plans.len(), |i: int| plans[i]@[s])
}

/// Step `i` lies in a dark gap of `c` that has lit steps on both sides and is
/// shorter than `min_off` steps.
pub open spec fn in_short_gap(c: Seq<bool>, i: int, min_off: int) -> bool {
    exists|a: int, b: int|
        #![trigger c[a], c[b]]
        0 <= a < i < b < c.len() && c[a] && c[b] && b - a - 1 < min_off && (forall|k: int|
            a < k < b ==> !#[trigger] c[k])
}

/// Lazy off: lit, or inside a short interior gap that is closed rather than
/// cycled.
pub open spec fn lazy_lit(c: Seq<bool>, i: int, min_off: int) -> bool {
    c[i] || in_short_gap(c, i, min_off)
}

/// Warm start on top of lazy off: lit after lazy off, or within `warmup`
/// steps before a step that is.
pub open spec fn smoothed_lit(c: Seq<bool>, i: int, warmup: int, min_off: int) -> bool {
    lazy_lit(c, i, min_off) || exists|j: int|
        i < j <= i + warmup && j < c.len() && #[trigger] lazy_lit(c, j, min_off)
}

/// Every step of a schedule has at least as many flags as the first.
pub open spec fn rows_cover_first(plans: Seq<Vec<bool>>) -> bool {
    plans.len() > 0 ==> forall|i: int| 0 <= i < plans.len() ==> (#[trigger] plans[i])@.len() >= plans[0]@.len()
}

fn copy_flags(v: &Vec<bool>) -> (r: Vec<bool>)
    ensures
        r@ == v@,
{
    let mut r: Vec<bool> = Vec::new();
    let mut i: usize = 0;
    while i < v.len()
        invariant
            i <= v@.len(),
            r@ == v@.take(i as int),
        decreases v@.len() - i,
    {
        r.push(v[i]);
        proof {
            assert(v@.take(i as int + 1) =~= v@.take(i as int).push(v@[i as int]));
        }
        i = i + 1;
    }
    assert(v@.take(i as int) =~= v@);
    r
}

/// Inside a maximal dark run `[start, end)` of `c`, lazy off lights exactly the
/// interior runs shorter than `min_off`.
proof fn lemma_gap_lazy(c: Seq<bool>, start: int, end: int, x: int, min_off: int)
    requires
        0 <= start <= x < end <= c.len(),
        forall|k: int| start <= k < end ==> !#[trigger] c[k],
        start == 0 || c[start - 1],
        end == c.len() || c[end],
    ensures
        lazy_lit(c, x, min_off) == (start > 0 && end < c.len() && end - start < min_off),
{
    if start > 0 && end < c.len() && end - start < min_off {
        assert(c[start - 1] && c[end]);
        assert(forall|k: int| start - 1 < k < end ==> !#[trigger] c[k]);
        assert(in_short_gap(c, x, min_off));
    }
    if in_short_gap(c, x, min_off) {
        let (a, b) = choose|a: int, b: int|
            #![trigger c[a], c[b]]
            0 <= a < x < b < c.len() && c[a] && c[b] && b - a - 1 < min_off && (forall|k: int|
                a < k < b ==> !#[trigger] c[k]);
        if a >= start {
            assert(!c[a]);
        }
        if a < start - 1 {
            assert(!c[start - 1]);
        }
        if b < end {
            assert(!c[b]);
        }
        if b > end {
            assert(!c[end]);
        }
    }
}

/// Lazy off, for the flags of satellite `s`: close every interior dark gap
/// shorter than `min_off` steps.
fn lazy_off_column(out: &mut Vec<Vec<bool>>, s: usize, min_off: usize)
    requires
        forall|k: int| 0 <= k < old(out)@.len() ==> s < (#[trigger] old(out)@[k])@.len(),
    ensures
        final(out)@.len() == old(out)@.len(),
        forall|k: int| 0 <= k < old(out)@.len() ==> (#[trigger] final(out)@[k])@.len() == old(out)@[k]@.len(),
        forall|k: int, t: int|
            0 <= k < old(out)@.len() && 0 <= t < old(out)@[k]@.len() && t != s ==> #[trigger] final(out)@[k]@[t]
                == old(out)@[k]@[t],
        forall|k: int|
            0 <= k < old(out)@.len() ==> #[trigger] final(out)@[k]@[s as int] == lazy_lit(
                column(old(out)@, s as int),
                k,
                min_off as int,
            ),
{
    let ghost before = out@;
    let ghost c0 = column(out@, s as int);
    let n = out.len();
    let mut i: usize = 0;
    while i < n
        invariant
            i <= n,
            n == before.len(),
            c0 == column(before, s as int),
            out@.len() == n,
            forall|k: int| 0 <= k < n ==> s < (#[trigger] before[k])@.len(),
            forall|k: int| 0 <= k < n ==> (#[trigger] out@[k])@.len() == before[k]@.len(),
            forall|k: int, t: int|
                0 <= k < n && 0 <= t < before[k]@.len() && t != s ==> #[trigger] out@[k]@[t] == before[k]@[t],
            forall|k: int| 0 <= k < i ==> #[trigger] out@[k]@[s as int] == lazy_lit(c0, k, min_off as int),
            forall|k: int| i <= k < n ==> #[trigger] out@[k]@[s as int] == c0[k],
            i < n ==> (i == 0 || c0[i - 1] || c0[i as int]),
        decreases n - i,
    {
        if out[i][s] {
            i = i + 1;
        } else {
            let start = i;
            while i < n && !out[i][s]
                invariant
                    start <= i <= n,
                    n == before.len(),
                    c0 == column(before, s as int),
                    out@.len() == n,
                    forall|k: int| 0 <= k < n ==> (#[trigger] out@[k])@.len() == before[k]@.len(),
                    forall|k: int| 0 <= k < n ==> s < (#[trigger] before[k])@.len(),
                    forall|k: int| start <= k < n ==> #[trigger] out@[k]@[s as int] == c0[k],
                    forall|k: int| start <= k < i ==> !#[trigger] c0[k],
                decreases n - i,
            {
                i = i + 1;
            }
            let gap = i - start;
            proof {
                assert(!c0[start as int]);
                assert forall|x: int| start <= x < i implies lazy_lit(c0, x, min_off as int) == (start > 0
                    && i < n && gap < min_off) by {
                    lemma_gap_lazy(c0, start as int, i as int, x, min_off as int);
                }
            }
            if start > 0 && i < n && gap < min_off {
                let mut k: usize = start;
                while k < i
                    invariant
                        start <= k <= i,
                        i <= n,
                        n == before.len(),
                        out@.len() == n,
                        forall|q: int| 0 <= q < n ==> (#[trigger] out@[q])@.len() == before[q]@.len(),
                        forall|q: int| 0 <= q < n ==> s < (#[trigger] before[q])@.len(),
                        forall|q: int, t: int|
                            0 <= q < n && 0 <= t < before[q]@.len() && t != s ==> #[trigger] out@[q]@[t] == before[q]@[t],
                        forall|q: int| 0 <= q < start ==> #[trigger] out@[q]@[s as int] == lazy_lit(c0, q, min_off as int),
                        forall|q: int| i <= q < n ==> #[trigger] out@[q]@[s as int] == c0[q],
                        forall|q: int| start <= q < k ==> #[trigger] out@[q]@[s as int],
                    decreases i - k,
                {
                    let ghost prev = out@;
                    out[k].set(s, true);
                    proof {
                        assert forall|q: int| 0 <= q < n && q != k implies #[trigger] out@[q] == prev[q] by {}
                    }
                    k = k + 1;
                }
            }
        }
    }
}

/// Lit at `k`, or lit at some step in `(k, k + warmup]` below `upto`.
pub open spec fn warm_upto(c: Seq<bool>, k: int, warmup: int, upto: int) -> bool {
    c[k] || exists|j: int| k < j <= k + warmup && j < upto && #[trigger] c[j]
}

/// Warm start, for the flags of satellite `s`: light every lit run
/// `warmup` steps before it begins.
fn warm_start_column(out: &mut Vec<Vec<bool>>, s: usize, warmup: usize)
    requires
        forall|k: int| 0 <= k < old(out)@.len() ==> s < (#[trigger] old(out)@[k])@.len(),
    ensures
        final(out)@.len() == old(out)@.len(),
        forall|k: int| 0 <= k < old(out)@.len() ==> (#[trigger] final(out)@[k])@.len() == old(out)@[k]@.len(),
        forall|k: int, t: int|
            0 <= k < old(out)@.len() && 0 <= t < old(out)@[k]@.len() && t != s ==> #[trigger] final(out)@[k]@[t]
                == old(out)@[k]@[t],
        forall|k: int|
            0 <= k < old(out)@.len() ==> #[trigger] final(out)@[k]@[s as int] == warm_upto(
                column(old(out)@, s as int),
                k,
                warmup as int,
                old(out)@.len() as int,
            ),
{
    let ghost before = out@;
    let ghost c = column(out@, s as int);
    let n = out.len();
    if warmup == 0 {
        assert forall|k: int| 0 <= k < n implies #[trigger] out@[k]@[s as int] == warm_upto(c, k, 0, n as int) by {}
        return;
    }
    let mut lit: Vec<bool> = Vec::new();
    let mut i: usize = 0;
    while i < n
        invariant
            i <= n,
            n == before.len(),
            out@ == before,
            c == column(before, s as int),
            forall|k: int| 0 <= k < n ==> s < (#[trigger] before[k])@.len(),
            lit@.len() == i,
            forall|k: int| 0 <= k < i ==> #[trigger] lit@[k] == c[k],
        decreases n - i,
    {
        lit.push(out[i][s]);
        i = i + 1;
    }
    let mut i: usize = 0;
    while i < n
        invariant
            i <= n,
            n == before.len(),
            c == column(before, s as int),
            lit@.len() == n,
            forall|k: int| 0 <= k < n ==> #[trigger] lit@[k] == c[k],
            out@.len() == n,
            forall|k: int| 0 <= k < n ==> s < (#[trigger] before[k])@.len(),
            forall|k: int| 0 <= k < n ==> (#[trigger] out@[k])@.len() == before[k]@.len(),
            forall|k: int, t: int|
                0 <= k < n && 0 <= t < before[k]@.len() && t != s ==> #[trigger] out@[k]@[t] == before[k]@[t],
            forall|k: int| 0 <= k < n ==> #[trigger] out@[k]@[s as int] == warm_upto(c, k, warmup as int, i as int),
        decreases n - i,
    {
        if lit[i] && (i == 0 || !lit[i - 1]) {
            let from: usize = if i >= warmup { i - warmup } else { 0 };
            let ghost mid = out@;
            let mut k: usize = from;
            while k < i
                invariant
                    from <= k <= i,
                    i < n,
                    n == before.len(),
                    out@.len() == n,
                    mid.len() == n,
                    forall|q: int| 0 <= q < n ==> s < (#[trigger] before[q])@.len(),
                    forall|q: int| 0 <= q < n ==> (#[trigger] out@[q])@.len() == before[q]@.len(),
                    forall|q: int, t: int|
                        0 <= q < n && 0 <= t < before[q]@.len() && t != s ==> #[trigger] out@[q]@[t] == mid[q]@[t],
                    forall|q: int| 0 <= q < n && !(from <= q < k) ==> #[trigger] out@[q]@[s as int] == mid[q]@[s as int],
                    forall|q: int| from <= q < k ==> #[trigger] out@[q]@[s as int],
                decreases i - k,
            {
                let ghost prev = out@;
                out[k].set(s, true);
                proof {
                    assert forall|q: int| 0 <= q < n && q != k implies #[trigger] out@[q] == prev[q] by {}
                }
                k = k + 1;
            }
            proof {
                assert forall|q: int| 0 <= q < n implies #[trigger] out@[q]@[s as int] == warm_upto(
                    c,
                    q,
                    warmup as int,
                    i as int + 1,
                ) by {
                    assert(c[i as int]);
                    if from <= q < i {
                        assert(q < i <= q + warmup);
                    } else {
                        if warm_upto(c, q, warmup as int, i as int + 1) && !c[q] {
                            let j = choose|j: int| q < j <= q + warmup && j < i + 1 && #[trigger] c[j];
                            if j == i {
                                assert(false);
                            }
                        }
                    }
                }
            }
        } else {
            proof {
                assert forall|q: int| 0 <= q < n implies #[trigger] out@[q]@[s as int] == warm_upto(
                    c,
                    q,
                    warmup as int,
                    i as int + 1,
                ) by {
                    if warm_upto(c, q, warmup as int, i as int + 1) && !c[q] {
                        let j = choose|j: int| q < j <= q + warmup && j < i + 1 && #[trigger] c[j];
                        if j == i {
                            assert(c[i - 1]);
                            if q < i - 1 {
                                assert(c[i - 1] && q < i - 1 <= q + warmup && i - 1 < i);
                            }
                        }
                    }
                }
            }
        }
        i = i + 1;
    }
}

/// Satellite `s` is lit at step `i` alone, dark on both sides.
pub open spec fn blinks(out: Seq<Vec<bool>>, s: int, i: int) -> bool {
    out[i]@[s] && !out[i - 1]@[s] && !out[i + 1]@[s]
}

/// Smooth a run of per-step plans into a schedule a spacecraft can fly, by
/// being lazy about switching off.
///
/// - **Lazy off.** If a satellite is needed again within `min_off_steps`, it
///   is left on through the gap rather than cycled. Only interior gaps count:
///   a run that starts or ends dark has no "again" to wait for.
/// - **Warm start.** It is lit `warmup_steps` before it is first needed.
///
/// Both only ever add lit time, so a smoothed schedule still covers everything
/// the input plans covered. The fleet is the first plan's length; flags past it
/// are left as they are.
pub fn smooth_schedule(plans: &[Vec<bool>], warmup_steps: usize, min_off_steps: usize) -> (out: Vec<
    Vec<bool>,
>)
    requires
        rows_cover_first(plans@),
    ensures
        out@.len() == plans@.len(),
        forall|i: int| 0 <= i < plans@.len() ==> (#[trigger] out@[i])@.len() == plans@[i]@.len(),
        forall|i: int, t: int|
            0 <= i < plans@.len() && plans@[0]@.len() <= t < plans@[i]@.len() ==> #[trigger] out@[i]@[t]
                == plans@[i]@[t],
        forall|i: int, s: int|
            0 <= i < plans@.len() && 0 <= s < plans@[0]@.len() ==> #[trigger] out@[i]@[s] == smoothed_lit(
                column(plans@, s),
                i,
                warmup_steps as int,
                min_off_steps as int,
            ),
        // Smoothing only ever adds lit time.
        forall|i: int, s: int|
            0 <= i < plans@.len() && 0 <= s < plans@[i]@.len() && #[trigger] plans@[i]@[s] ==> out@[i]@[s],
        // With any warm-up at all, no satellite is left with a one-step blink.
        warmup_steps >= 1 ==> forall|i: int, s: int|
            1 <= i < plans@.len() - 1 && 0 <= s < plans@[0]@.len() ==> !#[trigger] blinks(out@, s, i),
        // Smoothing never adds a switch.
        rows_never_shrink(plans@) ==> switch_total(out@, out@.len() as int) <= switch_total(
            plans@,
            plans@.len() as int,
        ),
{
    if plans.len() == 0 {
        return Vec::new();
    }
    let steps = plans.len();
    let fleet = plans[0].len();
    let mut out: Vec<Vec<bool>> = Vec::new();
    let mut i: usize = 0;
    while i < steps
        invariant
            i <= steps,
            steps == plans@.len(),
            out@.len() == i,
            forall|k: int| 0 <= k < i ==> (#[trigger] out@[k])@ == plans@[k]@,
        decreases steps - i,
    {
        out.push(copy_flags(&plans[i]));
        i = i + 1;
    }
    let mut s: usize = 0;
    while s < fleet
        invariant
            s <= fleet,
            steps == plans@.len(),
            steps > 0,
            fleet == plans@[0]@.len(),
            rows_cover_first(plans@),
            out@.len() == steps,
            forall|k: int| 0 <= k < steps ==> (#[trigger] out@[k])@.len() == plans@[k]@.len(),
            forall|k: int, t: int|
                0 <= k < steps && s <= t < plans@[k]@.len() ==> #[trigger] out@[k]@[t] == plans@[k]@[t],
            forall|k: int, t: int|
                0 <= k < steps && 0 <= t < s ==> #[trigger] out@[k]@[t] == smoothed_lit(
                    column(plans@, t),
                    k,
                    warmup_steps as int,
                    min_off_steps as int,
                ),
        decreases fleet - s,
    {
        proof {
            assert forall|k: int| 0 <= k < out@.len() implies s < (#[trigger] out@[k])@.len() by {
                assert(plans@[k]@.len() >= plans@[0]@.len());
            }
        }
        let ghost c = column(out@, s as int);
        proof {
            assert(c =~= column(plans@, s as int));
        }
        lazy_off_column(&mut out, s, min_off_steps);
        let ghost lazy = out@;
        proof {
            assert forall|k: int| 0 <= k < out@.len() implies s < (#[trigger] out@[k])@.len() by {
                assert(plans@[k]@.len() >= plans@[0]@.len());
            }
        }
        warm_start_column(&mut out, s, warmup_steps);
        proof {
            let lc = column(lazy, s as int);
            assert forall|j: int| 0 <= j < steps implies #[trigger] lc[j] == lazy_lit(c, j, min_off_steps as int) by {}
            assert forall|k: int| 0 <= k < steps implies #[trigger] out@[k]@[s as int] == smoothed_lit(
                c,
                k,
                warmup_steps as int,
                min_off_steps as int,
            ) by {
                assert(out@[k]@[s as int] == warm_upto(lc, k, warmup_steps as int, steps as int));
                if warm_upto(lc, k, warmup_steps as int, steps as int) && !lc[k] {
                    let j = choose|j: int| k < j <= k + warmup_steps && j < steps && #[trigger] lc[j];
                    assert(lazy_lit(c, j, min_off_steps as int));
                }
                if smoothed_lit(c, k, warmup_steps as int, min_off_steps as int) && !lazy_lit(c, k, min_off_steps as int) {
                    let j = choose|j: int| k < j <= k + warmup_steps && j < c.len() && #[trigger] lazy_lit(c, j, min_off_steps as int);
                    assert(lc[j]);
                }
            }
        }
        s = s + 1;
    }
    proof {
        assert forall|i: int, t: int|
            0 <= i < plans@.len() && 0 <= t < plans@[i]@.len() && #[trigger] plans@[i]@[t] implies out@[i]@[t] by {
            if t < fleet {
                assert(column(plans@, t)[i]);
                assert(lazy_lit(column(plans@, t), i, min_off_steps as int));
            }
        }
        if warmup_steps >= 1 {
            assert forall|i: int, t: int| 1 <= i < plans@.len() - 1 && 0 <= t < plans@[0]@.len() implies !#[trigger] blinks(
                out@,
                t,
                i,
            ) by {
                let c = column(plans@, t);
                let w = warmup_steps as int;
                let m = min_off_steps as int;
                if out@[i]@[t] {
                    assert(smoothed_lit(c, i, w, m));
                    if lazy_lit(c, i, m) {
                        assert(smoothed_lit(c, i - 1, w, m));
                        assert(out@[i - 1]@[t]);
                    } else {
                        let j = choose|j: int| i < j <= i + w && j < c.len() && #[trigger] lazy_lit(c, j, m);
                        assert(smoothed_lit(c, i + 1, w, m));
                        assert(out@[i + 1]@[t]);
                    }
                }
            }
        }
        if rows_never_shrink(plans@) {
            lemma_smoothing_never_adds_switches(plans@, out@, warmup_steps as int, min_off_steps as int);
        }
    }
    out
}

/// Flags among the first `n` that differ between `a` and `b`.
pub open spec fn diff_count(a: Seq<bool>, b: Seq<bool>, n: int) -> nat
    decreases n,
{
    if n <= 0 {
        0
    } else {
        diff_count(a, b, n - 1) + if a[n - 1] != b[n - 1] {
            1nat
        } else {
            0nat
        }
    }
}

/// On/off transitions between consecutive steps among the first `m` steps,
/// counted over each earlier step's flags.
pub open spec fn switch_total(plans: Seq<Vec<bool>>, m: int) -> nat
    decreases m,
{
    if m <= 1 {
        0
    } else {
        switch_total(plans, m - 1) + diff_count(plans[m - 2]@, plans[m - 1]@, plans[m - 2]@.len() as int)
    }
}

/// Each step has at least as many flags as the step before it.
pub open spec fn rows_never_shrink(plans: Seq<Vec<bool>>) -> bool {
    forall|i: int| 0 <= i < plans.len() - 1 ==> (#[trigger] plans[i + 1])@.len() >= plans[i]@.len()
}

proof fn lemma_diff_count_le(a: Seq<bool>, b: Seq<bool>, n: int)
    requires
        0 <= n,
    ensures
        diff_count(a, b, n) <= n,
    decreases n,
{
    if n > 0 {
        lemma_diff_count_le(a, b, n - 1);
    }
}

proof fn lemma_switch_total_mono(plans: Seq<Vec<bool>>, m: int, k: int)
    requires
        0 <= m <= k,
    ensures
        switch_total(plans, m) <= switch_total(plans, k),
    decreases k - m,
{
    if m < k {
        lemma_switch_total_mono(plans, m, k - 1);
    }
}

/// Total on/off transitions across a schedule: the number a policy actually
/// costs the fleet.
pub fn switch_count(plans: &[Vec<bool>]) -> (n: u64)
    requires
        rows_never_shrink(plans@),
        switch_total(plans@, plans@.len() as int) <= u64::MAX,
    ensures
        n == switch_total(plans@, plans@.len() as int),
{
    let steps = plans.len();
    let mut total: u64 = 0;
    if steps < 2 {
        return 0;
    }
    let mut i: usize = 0;
    while i + 1 < steps
        invariant
            i + 1 <= steps,
            steps == plans@.len(),
            rows_never_shrink(plans@),
            switch_total(plans@, steps as int) <= u64::MAX,
            total == switch_total(plans@, i as int + 1),
        decreases steps - i,
    {
        let a = &plans[i];
        let b = &plans[i + 1];
        assert(b@.len() >= a@.len());
        let mut c: usize = 0;
        let mut s: usize = 0;
        while s < a.len()
            invariant
                s <= a@.len(),
                a@.len() <= b@.len(),
                c == diff_count(a@, b@, s as int),
            decreases a@.len() - s,
        {
            proof {
                lemma_diff_count_le(a@, b@, s as int);
            }
            if a[s] != b[s] {
                c = c + 1;
            }
            s = s + 1;
        }
        proof {
            lemma_switch_total_mono(plans@, i as int + 2, steps as int);
        }
        total = total + c as u64;
        i = i + 1;
    }
    total
}

} // verus!
