//! Windows of neighbouring satellites on a ring: which positions a window
//! holds, and how few windows cover a set of positions.
//!
//! A satellite can lend its feeder terminals to anything within `reach` hops
//! along the necklace, so `2·reach + 1` consecutive satellites (never more
//! than the ring) pool their terminals. Positions are counted clockwise and
//! the ring wraps.

use vstd::prelude::*;
use vstd::arithmetic::div_mod::{
    lemma_fundamental_div_mod, lemma_mod_add_multiples_vanish, lemma_mod_multiples_vanish,
    lemma_small_mod,
};
use crate::distinct::{
    lemma_usize_le_total, usize_le, count_first, distinct, distinct_pairs, distinct_usize, firsts, lemma_distinct_props,
    lemma_sorted_asc_len, lemma_sum_first_counts_le, sort_usize, sorted_asc, sum_first_counts,
};
use crate::topology::{div_ceil, div_ceil_exec, Session};

verus! {

/// Satellites pooled by one window: `2·reach + 1`, but never more than the ring.
pub open spec fn pool_width(reach: nat, ring_size: nat) -> nat {
    if 2 * reach + 1 < ring_size {
        2 * reach + 1
    } else {
        ring_size
    }
}

pub(crate) fn pool_width_exec(reach: usize, ring_size: usize) -> (w: usize)
    requires
        ring_size > 0,
    ensures
        w == pool_width(reach as nat, ring_size as nat),
        1 <= w <= ring_size,
{
    if reach < ring_size / 2 {
        2 * reach + 1
    } else {
        ring_size
    }
}

/// How many steps clockwise `p` lies from `start` on a ring of `ring_size`.
pub open spec fn steps_from(start: int, p: int, ring_size: int) -> int {
    (p - start) % ring_size
}

proof fn lemma_steps_from(start: int, p: int, ring_size: int)
    requires
        ring_size > 0,
        0 <= start < ring_size,
        p >= 0,
    ensures
        steps_from(start, p, ring_size) == if p % ring_size >= start {
            p % ring_size - start
        } else {
            p % ring_size + ring_size - start
        },
        0 <= steps_from(start, p, ring_size) < ring_size,
{
    let q = p % ring_size;
    lemma_fundamental_div_mod(p, ring_size);
    lemma_mod_multiples_vanish(p / ring_size, q - start, ring_size);
    assert(p - start == ring_size * (p / ring_size) + (q - start));
    if q >= start {
        lemma_small_mod((q - start) as nat, ring_size as nat);
    } else {
        lemma_mod_add_multiples_vanish(q - start, ring_size);
        lemma_small_mod((ring_size + q - start) as nat, ring_size as nat);
    }
}

/// `steps_from` in machine arithmetic, without overflow for any ring size.
pub(crate) fn steps_exec(start: usize, p: usize, ring_size: usize) -> (d: usize)
    requires
        ring_size > 0,
        start < ring_size,
    ensures
        d == steps_from(start as int, p as int, ring_size as int),
        d < ring_size,
{
    proof {
        lemma_steps_from(start as int, p as int, ring_size as int);
    }
    let q = p % ring_size;
    if q >= start {
        q - start
    } else {
        q + (ring_size - start)
    }
}

/// Whether position `p` is one of the `w` positions of the window that
/// starts at `start`.
pub open spec fn in_window(p: int, start: nat, w: nat, ring_size: nat) -> bool {
    0 <= p < ring_size && steps_from(start as int, p, ring_size as int) < w
}

/// Positions shifted so that `offset` becomes position 0.
pub open spec fn shifted(positions: Seq<usize>, offset: nat, ring_size: nat) -> Seq<usize> {
    positions.map_values(|p: usize| steps_from(offset as int, p as int, ring_size as int) as usize)
}

/// Windows the greedy scan opens over `s[i..]`, the current window having
/// started at `cur`: an entry inside it is skipped, the first one beyond it
/// opens the next window at itself.
pub open spec fn windows_from(s: Seq<usize>, w: nat, i: int, cur: int) -> nat
    decreases s.len() - i,
{
    if i >= s.len() || i < 0 {
        0
    } else if s[i] < cur + w {
        windows_from(s, w, i + 1, cur)
    } else {
        1 + windows_from(s, w, i + 1, s[i] as int)
    }
}

/// Windows of width `w` the greedy scan uses on ascending `s`: the first
/// window starts at the smallest entry.
pub open spec fn windows_needed(s: Seq<usize>, w: nat) -> nat {
    if s.len() == 0 {
        0
    } else {
        1 + windows_from(s, w, 1, s[0] as int)
    }
}

/// Windows the greedy scan uses when the ring is cut open at `offset`.
pub open spec fn greedy_from(positions: Seq<usize>, ring_size: nat, w: nat, offset: nat) -> nat {
    windows_needed(sorted_asc(shifted(positions, offset, ring_size)), w)
}

/// The fewest windows the greedy scan uses over the cuts `0..k`.
pub open spec fn best_greedy(positions: Seq<usize>, ring_size: nat, w: nat, k: nat) -> nat
    decreases k,
{
    if k <= 1 {
        greedy_from(positions, ring_size, w, 0)
    } else {
        let rest = best_greedy(positions, ring_size, w, (k - 1) as nat);
        let here = greedy_from(positions, ring_size, w, (k - 1) as nat);
        if here < rest {
            here
        } else {
            rest
        }
    }
}

/// Windows of `w` consecutive positions covering `positions` around a ring of
/// `ring_size`: the count of the greedy scan from whichever of the
/// `ring_size` places to cut the ring open needs fewest; 0 for no positions.
/// No set of windows covering the positions is smaller
/// ([`lemma_ring_cover_is_fewest`]).
pub open spec fn ring_cover(positions: Seq<usize>, ring_size: nat, w: nat) -> nat {
    if positions.len() == 0 {
        0
    } else {
        best_greedy(positions, ring_size, w, ring_size)
    }
}

proof fn lemma_windows_from_le(s: Seq<usize>, w: nat, i: int, cur: int)
    requires
        0 <= i,
    ensures
        windows_from(s, w, i, cur) <= if i < s.len() {
            s.len() - i
        } else {
            0
        },
    decreases s.len() - i,
{
    if i < s.len() {
        lemma_windows_from_le(s, w, i + 1, cur);
        lemma_windows_from_le(s, w, i + 1, s[i] as int);
    }
}

proof fn lemma_best_greedy_le(positions: Seq<usize>, ring_size: nat, w: nat, k: nat)
    ensures
        best_greedy(positions, ring_size, w, k) <= positions.len(),
    decreases k,
{
    if k <= 1 {
        let s = sorted_asc(shifted(positions, 0, ring_size));
        lemma_sorted_asc_len(shifted(positions, 0, ring_size));
        lemma_windows_from_le(s, w, 1, if s.len() > 0 { s[0] as int } else { 0 });
    } else {
        lemma_best_greedy_le(positions, ring_size, w, (k - 1) as nat);
    }
}

/// The cover never needs more windows than there are positions.
pub proof fn lemma_ring_cover_le(positions: Seq<usize>, ring_size: nat, w: nat)
    ensures
        ring_cover(positions, ring_size, w) <= positions.len(),
{
    lemma_best_greedy_le(positions, ring_size, w, ring_size);
}

/// `starts` are windows of `w` consecutive positions that between them hold
/// every position of `positions`, each taken round the ring.
pub open spec fn windows_cover(positions: Seq<usize>, starts: Seq<nat>, ring_size: nat, w: nat) -> bool {
    &&& forall|j: int| 0 <= j < starts.len() ==> #[trigger] starts[j] < ring_size
    &&& forall|i: int|
        0 <= i < positions.len() ==> exists|j: int|
            0 <= j < starts.len() && in_window(
                ((#[trigger] positions[i]) as int) % (ring_size as int),
                starts[j],
                w,
                ring_size,
            )
}

/// How many of the line windows starting at `d` reach beyond `y`.
spec fn ending_after(d: Seq<int>, w: nat, y: int) -> nat
    decreases d.len(),
{
    if d.len() == 0 {
        0
    } else {
        ending_after(d.drop_last(), w, y) + if d.last() + w > y {
            1nat
        } else {
            0nat
        }
    }
}

proof fn lemma_ending_after_le(d: Seq<int>, w: nat, y1: int, y2: int)
    requires
        y1 <= y2,
    ensures
        ending_after(d, w, y2) <= ending_after(d, w, y1) <= d.len(),
    decreases d.len(),
{
    if d.len() > 0 {
        lemma_ending_after_le(d.drop_last(), w, y1, y2);
    }
}

/// A window that reaches beyond `y1` but not beyond `y2` counts at `y1` only.
proof fn lemma_ending_after_drops(d: Seq<int>, w: nat, y1: int, y2: int, j: int)
    requires
        y1 <= y2,
        0 <= j < d.len(),
        y1 < d[j] + w <= y2,
    ensures
        ending_after(d, w, y2) + 1 <= ending_after(d, w, y1),
    decreases d.len(),
{
    if j < d.len() - 1 {
        lemma_ending_after_drops(d.drop_last(), w, y1, y2, j);
    } else {
        lemma_ending_after_le(d.drop_last(), w, y1, y2);
    }
}

/// Entry `x` lies in one of the line windows starting at `d`.
spec fn on_some_window(d: Seq<int>, w: nat, x: int) -> bool {
    exists|j: int| 0 <= j < d.len() && #[trigger] d[j] <= x < d[j] + w
}

/// The greedy scan from entry `i` on, its window started at `cur`, opens no
/// more windows than there are covering windows reaching beyond `cur + w`.
proof fn lemma_windows_from_fewest(s: Seq<usize>, d: Seq<int>, w: nat, i: int, cur: int)
    requires
        0 <= i,
        forall|k: int| 0 <= k < s.len() ==> on_some_window(d, w, #[trigger] s[k] as int),
    ensures
        windows_from(s, w, i, cur) <= ending_after(d, w, cur + w),
    decreases s.len() - i,
{
    if i < s.len() {
        if s[i] < cur + w {
            lemma_windows_from_fewest(s, d, w, i + 1, cur);
        } else {
            lemma_windows_from_fewest(s, d, w, i + 1, s[i] as int);
            assert(on_some_window(d, w, s[i] as int));
            let j = choose|j: int| 0 <= j < d.len() && d[j] <= s[i] as int && (s[i] as int) < d[j] + w;
            lemma_ending_after_drops(d, w, cur + w, s[i] + w, j);
        }
    }
}

/// On a line, the greedy scan uses no more windows than any set of windows
/// that covers every entry.
proof fn lemma_windows_needed_fewest(s: Seq<usize>, d: Seq<int>, w: nat)
    requires
        forall|k: int| 0 <= k < s.len() ==> on_some_window(d, w, #[trigger] s[k] as int),
    ensures
        windows_needed(s, w) <= d.len(),
{
    if s.len() > 0 {
        lemma_windows_from_fewest(s, d, w, 1, s[0] as int);
        assert(on_some_window(d, w, s[0] as int));
        let j = choose|j: int| 0 <= j < d.len() && d[j] <= s[0] as int && (s[0] as int) < d[j] + w;
        lemma_ending_after_drops(d, w, s[0] as int, s[0] + w, j);
        lemma_ending_after_le(d, w, s[0] as int, s[0] as int);
    }
}

proof fn lemma_best_greedy_le_cut(positions: Seq<usize>, ring_size: nat, w: nat, k: nat, o: nat)
    requires
        o < k,
    ensures
        best_greedy(positions, ring_size, w, k) <= greedy_from(positions, ring_size, w, o),
    decreases k,
{
    if k > 1 && o < k - 1 {
        lemma_best_greedy_le_cut(positions, ring_size, w, (k - 1) as nat, o);
    }
}

/// Cut open at the start of one covering window, every position's offset
/// lies in the line window of some covering window.
proof fn lemma_cut_at_window(positions: Seq<usize>, starts: Seq<nat>, ring_size: nat, w: nat, i: int)
    requires
        ring_size > 0,
        starts.len() > 0,
        windows_cover(positions, starts, ring_size, w),
        0 <= i < positions.len(),
    ensures
        on_some_window(
            Seq::new(starts.len(), |j: int| steps_from(starts[0] as int, starts[j] as int, ring_size as int)),
            w,
            steps_from(starts[0] as int, positions[i] as int, ring_size as int),
        ),
{
    let n = ring_size as int;
    let o = starts[0] as int;
    let d = Seq::new(starts.len(), |j: int| steps_from(o, starts[j] as int, n));
    let p = positions[i] as int;
    let q = p % n;
    let j = choose|j: int| 0 <= j < starts.len() && in_window(q, starts[j], w, ring_size);
    assert(0 <= j < starts.len() && in_window(q, starts[j], w, ring_size));
    let st = starts[j] as int;
    assert(starts[0] < ring_size);
    lemma_small_mod(q as nat, n as nat);
    lemma_small_mod(o as nat, n as nat);
    lemma_small_mod(st as nat, n as nat);
    lemma_steps_from(o, p, n);
    lemma_steps_from(o, st, n);
    lemma_steps_from(st, q, n);
    lemma_steps_from(o, o, n);
    let v = steps_from(o, p, n);
    if !(d[j] <= v < d[j] + w) {
        assert(v < w);
        assert(d[0] == 0);
    }
}

/// No windows cover the positions with fewer windows than the cover counts:
/// the greedy scan from the best cut is a fewest cover.
pub proof fn lemma_ring_cover_is_fewest(positions: Seq<usize>, starts: Seq<nat>, ring_size: nat, w: nat)
    requires
        0 < ring_size <= usize::MAX,
        windows_cover(positions, starts, ring_size, w),
    ensures
        ring_cover(positions, ring_size, w) <= starts.len(),
{
    if positions.len() > 0 {
        let x0 = positions[0];
        assert(exists|j: int| 0 <= j < starts.len() && in_window((x0 as int) % (ring_size as int), starts[j], w, ring_size));
        let n = ring_size as int;
        let o = starts[0];
        let d = Seq::new(starts.len(), |j: int| steps_from(starts[0] as int, starts[j] as int, n));
        let sh = shifted(positions, o, ring_size);
        let s = sorted_asc(sh);
        lemma_usize_le_total();
        sh.lemma_sort_by_ensures(usize_le());
        assert forall|k: int| 0 <= k < s.len() implies on_some_window(d, w, #[trigger] s[k] as int) by {
            assert(s.contains(s[k]));
            assert(sh.contains(s[k]));
            let i = choose|i: int| 0 <= i < sh.len() && sh[i] == s[k];
            lemma_cut_at_window(positions, starts, ring_size, w, i);
            lemma_steps_from(o as int, positions[i] as int, n);
            assert(d =~= Seq::new(starts.len(), |j: int| steps_from(starts[0] as int, starts[j] as int, ring_size as int)));
            assert(s[k] as int == steps_from(starts[0] as int, positions[i] as int, ring_size as int));
        }
        lemma_windows_needed_fewest(s, d, w);
        lemma_best_greedy_le_cut(positions, ring_size, w, ring_size, o);
    }
}

fn shifted_exec(positions: &Vec<usize>, offset: usize, ring_size: usize) -> (r: Vec<usize>)
    requires
        ring_size > 0,
        offset < ring_size,
    ensures
        r@ == shifted(positions@, offset as nat, ring_size as nat),
{
    let mut r: Vec<usize> = Vec::new();
    let mut i: usize = 0;
    while i < positions.len()
        invariant
            i <= positions@.len(),
            ring_size > 0,
            offset < ring_size,
            r@ == shifted(positions@, offset as nat, ring_size as nat).take(i as int),
        decreases positions@.len() - i,
    {
        let d = steps_exec(offset, positions[i], ring_size);
        r.push(d);
        proof {
            let f = shifted(positions@, offset as nat, ring_size as nat);
            assert(f.take(i as int + 1) =~= f.take(i as int).push(d));
        }
        i = i + 1;
    }
    assert(shifted(positions@, offset as nat, ring_size as nat).take(i as int) =~= shifted(
        positions@,
        offset as nat,
        ring_size as nat,
    ));
    r
}

fn windows_needed_exec(s: &Vec<usize>, w: usize) -> (c: usize)
    requires
        w > 0,
    ensures
        c == windows_needed(s@, w as nat),
{
    if s.len() == 0 {
        return 0;
    }
    let mut cur: usize = s[0];
    let mut count: usize = 1;
    let mut i: usize = 1;
    proof {
        lemma_windows_from_le(s@, w as nat, 1, cur as int);
    }
    while i < s.len()
        invariant
            1 <= i <= s@.len(),
            1 <= count <= i,
            w > 0,
            windows_needed(s@, w as nat) == count + windows_from(s@, w as nat, i as int, cur as int),
        decreases s@.len() - i,
    {
        proof {
            lemma_windows_from_le(s@, w as nat, i as int + 1, cur as int);
            lemma_windows_from_le(s@, w as nat, i as int + 1, s@[i as int] as int);
        }
        let inside = if s[i] <= cur {
            true
        } else {
            s[i] - cur < w
        };
        if !inside {
            count = count + 1;
            cur = s[i];
        }
        i = i + 1;
    }
    count
}

/// Fewest windows of `window` consecutive positions needed to cover every
/// position in `positions`, around a ring of `ring_size`.
///
/// Greedy from each possible starting offset: a ring has no natural left end,
/// so the best cover depends on where you begin, and there are only
/// `ring_size` places to begin.
pub(crate) fn cover_ring(positions: &Vec<usize>, ring_size: usize, window: usize) -> (c: usize)
    requires
        ring_size > 0,
        window > 0,
    ensures
        c == ring_cover(positions@, ring_size as nat, window as nat),
        c <= positions@.len(),
{
    proof {
        lemma_ring_cover_le(positions@, ring_size as nat, window as nat);
    }
    if positions.len() == 0 {
        return 0;
    }
    let mut best: usize = windows_needed_exec(&sort_usize(shifted_exec(positions, 0, ring_size)), window);
    let mut offset: usize = 1;
    while offset < ring_size
        invariant
            1 <= offset <= ring_size,
            window > 0,
            best == best_greedy(positions@, ring_size as nat, window as nat, offset as nat),
        decreases ring_size - offset,
    {
        let count = windows_needed_exec(&sort_usize(shifted_exec(positions, offset, ring_size)), window);
        if count < best {
            best = count;
        }
        offset = offset + 1;
    }
    best
}

/// A session placed on the necklace: (ring, position, anchor).
pub open spec fn placed(ss: Seq<Session>, slots: Seq<(usize, usize)>) -> Seq<(usize, usize, usize)> {
    Seq::new(ss.len(), |i: int| (slots[i].0, slots[i].1, ss[i].anchor))
}

/// Anchors wanted by the placed sessions sitting in the window of `ring`
/// that starts at `start`, in session order.
pub open spec fn window_anchors(pl: Seq<(usize, usize, usize)>, ring: usize, start: nat, w: nat, ring_size: nat) -> Seq<usize>
    decreases pl.len(),
{
    if pl.len() == 0 {
        Seq::empty()
    } else {
        let rest = window_anchors(pl.drop_last(), ring, start, w, ring_size);
        let t = pl.last();
        if t.0 == ring && in_window(t.1 as int, start, w, ring_size) {
            rest.push(t.2)
        } else {
            rest
        }
    }
}

/// Switched-on satellites (`row[p]`) among positions `0..upto` of the window
/// starting at `start`.
pub open spec fn relays(row: Seq<bool>, start: nat, w: nat, ring_size: nat, upto: nat) -> nat
    decreases upto,
{
    if upto == 0 {
        0
    } else {
        let p = upto - 1;
        relays(row, start, w, ring_size, p as nat) + if row[p] && in_window(p, start, w, ring_size) {
            1nat
        } else {
            0nat
        }
    }
}

/// Feeder terminals each member of the window starting at `start` carries:
/// the window's distinct anchors split evenly over its switched-on members,
/// or carried by one satellite alone when none is switched on.
pub open spec fn window_share(
    pl: Seq<(usize, usize, usize)>,
    row: Seq<bool>,
    ring: usize,
    start: nat,
    w: nat,
    ring_size: nat,
) -> nat {
    let u = distinct(window_anchors(pl, ring, start, w, ring_size)).len();
    let r = relays(row, start, w, ring_size, ring_size);
    div_ceil(u, if r == 0 { 1 } else { r })
}

/// The busiest of the windows of `ring` starting at `0..upto`.
pub open spec fn worst_share(
    pl: Seq<(usize, usize, usize)>,
    row: Seq<bool>,
    ring: usize,
    w: nat,
    ring_size: nat,
    upto: nat,
) -> nat
    decreases upto,
{
    if upto == 0 {
        0
    } else {
        let rest = worst_share(pl, row, ring, w, ring_size, (upto - 1) as nat);
        let here = window_share(pl, row, ring, (upto - 1) as nat, w, ring_size);
        if here > rest {
            here
        } else {
            rest
        }
    }
}

/// The rings carrying sessions, in order of first appearance.
pub open spec fn ring_list(pl: Seq<(usize, usize, usize)>) -> Seq<usize> {
    distinct(pl.map_values(|t: (usize, usize, usize)| t.0))
}

/// The anchors holding sessions, in order of first appearance.
pub open spec fn anchor_list(pl: Seq<(usize, usize, usize)>) -> Seq<usize> {
    distinct(pl.map_values(|t: (usize, usize, usize)| t.2))
}

/// For each ring in `ring_list` order, the terminals every one of its
/// satellites carries: its busiest window's share, with `avail[k]` saying
/// which positions of the `k`-th ring can relay.
pub open spec fn ring_worst(pl: Seq<(usize, usize, usize)>, avail: Seq<Seq<bool>>, w: nat, ring_size: nat) -> Seq<usize> {
    let rings = ring_list(pl);
    Seq::new(rings.len(), |k: int| worst_share(pl, avail[k], rings[k], w, ring_size, ring_size) as usize)
}

/// (ring, anchor) of every placed session whose position lies on its ring.
pub open spec fn ring_anchor_pairs(pl: Seq<(usize, usize, usize)>, ring_size: nat) -> Seq<(usize, usize)>
    decreases pl.len(),
{
    if pl.len() == 0 {
        Seq::empty()
    } else {
        let rest = ring_anchor_pairs(pl.drop_last(), ring_size);
        let t = pl.last();
        if t.1 < ring_size {
            rest.push((t.0, t.2))
        } else {
            rest
        }
    }
}

/// (ring, position) of every placed session held by `anchor`, in order.
pub open spec fn slots_of_anchor(pl: Seq<(usize, usize, usize)>, anchor: usize) -> Seq<(usize, usize)>
    decreases pl.len(),
{
    if pl.len() == 0 {
        Seq::empty()
    } else {
        let rest = slots_of_anchor(pl.drop_last(), anchor);
        let t = pl.last();
        if t.2 == anchor {
            rest.push((t.0, t.1))
        } else {
            rest
        }
    }
}

/// Positions of the `slots` that lie on `ring`, in order.
pub open spec fn positions_on(slots: Seq<(usize, usize)>, ring: usize) -> Seq<usize>
    decreases slots.len(),
{
    if slots.len() == 0 {
        Seq::empty()
    } else {
        let rest = positions_on(slots.drop_last(), ring);
        if slots.last().0 == ring {
            rest.push(slots.last().1)
        } else {
            rest
        }
    }
}

/// Windows covering the `slots` of each of `rings`, summed.
pub open spec fn covers_over(slots: Seq<(usize, usize)>, rings: Seq<usize>, ring_size: nat, w: nat) -> nat
    decreases rings.len(),
{
    if rings.len() == 0 {
        0
    } else {
        covers_over(slots, rings.drop_last(), ring_size, w) + ring_cover(
            positions_on(slots, rings.last()),
            ring_size,
            w,
        )
    }
}

/// Feeder terminals `anchor` holds: one per window that needs it, on each
/// ring that talks to it.
pub open spec fn anchor_terminals(pl: Seq<(usize, usize, usize)>, anchor: usize, ring_size: nat, w: nat) -> nat {
    let slots = distinct(slots_of_anchor(pl, anchor));
    covers_over(slots, distinct(firsts(slots)), ring_size, w)
}

proof fn lemma_positions_on_len(slots: Seq<(usize, usize)>, ring: usize)
    ensures
        positions_on(slots, ring).len() == count_first(slots, ring),
    decreases slots.len(),
{
    if slots.len() > 0 {
        lemma_positions_on_len(slots.drop_last(), ring);
    }
}

proof fn lemma_covers_over_le(slots: Seq<(usize, usize)>, rings: Seq<usize>, ring_size: nat, w: nat)
    ensures
        covers_over(slots, rings, ring_size, w) <= sum_first_counts(slots, rings),
    decreases rings.len(),
{
    if rings.len() > 0 {
        lemma_covers_over_le(slots, rings.drop_last(), ring_size, w);
        lemma_ring_cover_le(positions_on(slots, rings.last()), ring_size, w);
        lemma_positions_on_len(slots, rings.last());
    }
}

proof fn lemma_window_anchors_len(pl: Seq<(usize, usize, usize)>, ring: usize, start: nat, w: nat, ring_size: nat)
    ensures
        window_anchors(pl, ring, start, w, ring_size).len() <= pl.len(),
    decreases pl.len(),
{
    if pl.len() > 0 {
        lemma_window_anchors_len(pl.drop_last(), ring, start, w, ring_size);
    }
}

proof fn lemma_relays_le(row: Seq<bool>, start: nat, w: nat, ring_size: nat, upto: nat)
    ensures
        relays(row, start, w, ring_size, upto) <= upto,
    decreases upto,
{
    if upto > 0 {
        lemma_relays_le(row, start, w, ring_size, (upto - 1) as nat);
    }
}

proof fn lemma_div_ceil_le(a: nat, b: nat)
    requires
        b > 0,
    ensures
        div_ceil(a, b) <= a || a == 0,
        div_ceil(a, b) <= a,
{
    if b == 1 {
        assert(a % 1 == 0 && a / 1 == a) by (nonlinear_arith);
    } else {
        assert(a / b <= a) by (nonlinear_arith)
            requires
                b > 0,
        ;
        if a % b != 0 {
            assert(a / b < a) by (nonlinear_arith)
                requires
                    b > 1,
                    a % b != 0,
            ;
        }
    }
}

proof fn lemma_worst_share_le(
    pl: Seq<(usize, usize, usize)>,
    row: Seq<bool>,
    ring: usize,
    w: nat,
    ring_size: nat,
    upto: nat,
)
    ensures
        worst_share(pl, row, ring, w, ring_size, upto) <= pl.len(),
    decreases upto,
{
    if upto > 0 {
        let start = (upto - 1) as nat;
        lemma_worst_share_le(pl, row, ring, w, ring_size, start);
        let list = window_anchors(pl, ring, start, w, ring_size);
        lemma_window_anchors_len(pl, ring, start, w, ring_size);
        lemma_distinct_props(list);
        let r = relays(row, start, w, ring_size, ring_size);
        lemma_div_ceil_le(distinct(list).len(), if r == 0 { 1 } else { r });
    }
}

pub(crate) fn placed_exec(sessions: &[Session], slots: &Vec<(usize, usize)>) -> (pl: Vec<(usize, usize, usize)>)
    requires
        slots@.len() == sessions@.len(),
    ensures
        pl@ == placed(sessions@, slots@),
{
    let mut pl: Vec<(usize, usize, usize)> = Vec::new();
    let mut i: usize = 0;
    while i < sessions.len()
        invariant
            i <= sessions@.len(),
            slots@.len() == sessions@.len(),
            pl@ == placed(sessions@, slots@).take(i as int),
        decreases sessions@.len() - i,
    {
        let t = (slots[i].0, slots[i].1, sessions[i].anchor);
        pl.push(t);
        proof {
            assert(placed(sessions@, slots@).take(i as int + 1) =~= placed(sessions@, slots@).take(i as int).push(t));
        }
        i = i + 1;
    }
    assert(placed(sessions@, slots@).take(i as int) =~= placed(sessions@, slots@));
    pl
}

pub(crate) fn ring_list_exec(pl: &Vec<(usize, usize, usize)>) -> (r: Vec<usize>)
    ensures
        r@ == ring_list(pl@),
{
    let mut rs: Vec<usize> = Vec::new();
    let mut i: usize = 0;
    while i < pl.len()
        invariant
            i <= pl@.len(),
            rs@ == pl@.map_values(|t: (usize, usize, usize)| t.0).take(i as int),
        decreases pl@.len() - i,
    {
        rs.push(pl[i].0);
        proof {
            let f = pl@.map_values(|t: (usize, usize, usize)| t.0);
            assert(f.take(i as int + 1) =~= f.take(i as int).push(pl@[i as int].0));
        }
        i = i + 1;
    }
    assert(pl@.map_values(|t: (usize, usize, usize)| t.0).take(i as int) =~= pl@.map_values(
        |t: (usize, usize, usize)| t.0,
    ));
    distinct_usize(&rs)
}

pub(crate) fn anchor_list_exec(pl: &Vec<(usize, usize, usize)>) -> (r: Vec<usize>)
    ensures
        r@ == anchor_list(pl@),
{
    let mut xs: Vec<usize> = Vec::new();
    let mut i: usize = 0;
    while i < pl.len()
        invariant
            i <= pl@.len(),
            xs@ == pl@.map_values(|t: (usize, usize, usize)| t.2).take(i as int),
        decreases pl@.len() - i,
    {
        xs.push(pl[i].2);
        proof {
            let f = pl@.map_values(|t: (usize, usize, usize)| t.2);
            assert(f.take(i as int + 1) =~= f.take(i as int).push(pl@[i as int].2));
        }
        i = i + 1;
    }
    assert(pl@.map_values(|t: (usize, usize, usize)| t.2).take(i as int) =~= pl@.map_values(
        |t: (usize, usize, usize)| t.2,
    ));
    distinct_usize(&xs)
}

fn window_anchors_exec(pl: &Vec<(usize, usize, usize)>, ring: usize, start: usize, w: usize, ring_size: usize) -> (r: Vec<usize>)
    requires
        start < ring_size,
    ensures
        r@ == window_anchors(pl@, ring, start as nat, w as nat, ring_size as nat),
{
    let mut r: Vec<usize> = Vec::new();
    let mut i: usize = 0;
    while i < pl.len()
        invariant
            i <= pl@.len(),
            start < ring_size,
            r@ == window_anchors(pl@.take(i as int), ring, start as nat, w as nat, ring_size as nat),
        decreases pl@.len() - i,
    {
        proof {
            assert(pl@.take(i as int + 1).drop_last() =~= pl@.take(i as int));
        }
        let t = pl[i];
        if t.0 == ring && t.1 < ring_size {
            if steps_exec(start, t.1, ring_size) < w {
                r.push(t.2);
            }
        }
        i = i + 1;
    }
    assert(pl@.take(i as int) =~= pl@);
    r
}

fn relays_exec(row: &Vec<bool>, start: usize, w: usize, ring_size: usize) -> (r: usize)
    requires
        start < ring_size,
        row@.len() == ring_size,
    ensures
        r == relays(row@, start as nat, w as nat, ring_size as nat, ring_size as nat),
{
    let mut r: usize = 0;
    let mut p: usize = 0;
    while p < ring_size
        invariant
            p <= ring_size,
            start < ring_size,
            row@.len() == ring_size,
            r == relays(row@, start as nat, w as nat, ring_size as nat, p as nat),
        decreases ring_size - p,
    {
        proof {
            lemma_relays_le(row@, start as nat, w as nat, ring_size as nat, p as nat);
        }
        if row[p] && steps_exec(start, p, ring_size) < w {
            r = r + 1;
        }
        p = p + 1;
    }
    r
}

/// Terminals each satellite of `ring` carries: the busiest window's share.
pub(crate) fn worst_share_exec(
    pl: &Vec<(usize, usize, usize)>,
    row: &Vec<bool>,
    ring: usize,
    w: usize,
    ring_size: usize,
) -> (worst: usize)
    requires
        row@.len() == ring_size,
    ensures
        worst == worst_share(pl@, row@, ring, w as nat, ring_size as nat, ring_size as nat),
{
    let mut worst: usize = 0;
    let mut start: usize = 0;
    while start < ring_size
        invariant
            start <= ring_size,
            row@.len() == ring_size,
            worst == worst_share(pl@, row@, ring, w as nat, ring_size as nat, start as nat),
        decreases ring_size - start,
    {
        proof {
            lemma_worst_share_le(pl@, row@, ring, w as nat, ring_size as nat, start as nat + 1);
        }
        let union = distinct_usize(&window_anchors_exec(pl, ring, start, w, ring_size));
        let relays = relays_exec(row, start, w, ring_size);
        // A window with nothing switched on cannot pool: whichever satellite
        // holds the sessions carries their anchors by itself.
        let share = div_ceil_exec(union.len(), if relays == 0 { 1 } else { relays });
        if share > worst {
            worst = share;
        }
        start = start + 1;
    }
    worst
}

pub(crate) fn ring_anchor_pairs_exec(pl: &Vec<(usize, usize, usize)>, ring_size: usize) -> (r: Vec<(usize, usize)>)
    ensures
        r@ == ring_anchor_pairs(pl@, ring_size as nat),
{
    let mut r: Vec<(usize, usize)> = Vec::new();
    let mut i: usize = 0;
    while i < pl.len()
        invariant
            i <= pl@.len(),
            r@ == ring_anchor_pairs(pl@.take(i as int), ring_size as nat),
        decreases pl@.len() - i,
    {
        proof {
            assert(pl@.take(i as int + 1).drop_last() =~= pl@.take(i as int));
        }
        if pl[i].1 < ring_size {
            r.push((pl[i].0, pl[i].2));
        }
        i = i + 1;
    }
    assert(pl@.take(i as int) =~= pl@);
    r
}

fn slots_of_anchor_exec(pl: &Vec<(usize, usize, usize)>, anchor: usize) -> (r: Vec<(usize, usize)>)
    ensures
        r@ == slots_of_anchor(pl@, anchor),
        r@.len() <= pl@.len(),
{
    let mut r: Vec<(usize, usize)> = Vec::new();
    let mut i: usize = 0;
    while i < pl.len()
        invariant
            i <= pl@.len(),
            r@ == slots_of_anchor(pl@.take(i as int), anchor),
            r@.len() <= i,
        decreases pl@.len() - i,
    {
        proof {
            assert(pl@.take(i as int + 1).drop_last() =~= pl@.take(i as int));
        }
        if pl[i].2 == anchor {
            r.push((pl[i].0, pl[i].1));
        }
        i = i + 1;
    }
    assert(pl@.take(i as int) =~= pl@);
    r
}

fn positions_on_exec(slots: &Vec<(usize, usize)>, ring: usize) -> (r: Vec<usize>)
    ensures
        r@ == positions_on(slots@, ring),
{
    let mut r: Vec<usize> = Vec::new();
    let mut i: usize = 0;
    while i < slots.len()
        invariant
            i <= slots@.len(),
            r@ == positions_on(slots@.take(i as int), ring),
        decreases slots@.len() - i,
    {
        proof {
            assert(slots@.take(i as int + 1).drop_last() =~= slots@.take(i as int));
        }
        if slots[i].0 == ring {
            r.push(slots[i].1);
        }
        i = i + 1;
    }
    assert(slots@.take(i as int) =~= slots@);
    r
}

/// Feeder terminals `anchor` holds: one per window that needs it, per ring.
pub(crate) fn anchor_terminals_exec(pl: &Vec<(usize, usize, usize)>, anchor: usize, ring_size: usize, w: usize) -> (c: usize)
    requires
        ring_size > 0,
        w > 0,
    ensures
        c == anchor_terminals(pl@, anchor, ring_size as nat, w as nat),
{
    let all = slots_of_anchor_exec(pl, anchor);
    let slots = distinct_pairs(&all);
    let mut fs: Vec<usize> = Vec::new();
    let mut i: usize = 0;
    while i < slots.len()
        invariant
            i <= slots@.len(),
            fs@ == firsts(slots@).take(i as int),
        decreases slots@.len() - i,
    {
        fs.push(slots[i].0);
        proof {
            assert(firsts(slots@).take(i as int + 1) =~= firsts(slots@).take(i as int).push(slots@[i as int].0));
        }
        i = i + 1;
    }
    assert(firsts(slots@).take(i as int) =~= firsts(slots@));
    let rings = distinct_usize(&fs);
    proof {
        lemma_distinct_props(firsts(slots@));
        lemma_distinct_props(all@);
    }
    let count = slots.len();
    let mut total: usize = 0;
    let mut k: usize = 0;
    while k < rings.len()
        invariant
            k <= rings@.len(),
            count == slots@.len(),
            ring_size > 0,
            w > 0,
            rings@.no_duplicates(),
            slots@.len() <= pl@.len(),
            total == covers_over(slots@, rings@.take(k as int), ring_size as nat, w as nat),
            total <= sum_first_counts(slots@, rings@.take(k as int)),
        decreases rings@.len() - k,
    {
        let here = cover_ring(&positions_on_exec(&slots, rings[k]), ring_size, w);
        proof {
            let g = rings@.take(k as int + 1);
            assert(g.drop_last() =~= rings@.take(k as int));
            assert(g.no_duplicates());
            lemma_sum_first_counts_le(slots@, g);
            lemma_positions_on_len(slots@, rings@[k as int]);
            assert(g.last() == rings@[k as int]);
            assert(sum_first_counts(slots@, g) == sum_first_counts(slots@, rings@.take(k as int)) + count_first(
                slots@,
                rings@[k as int],
            ));
            assert(covers_over(slots@, g, ring_size as nat, w as nat) == total + here);
        }
        total = total + here;
        k = k + 1;
    }
    assert(rings@.take(k as int) =~= rings@);
    total
}

} // verus!
