//! Which way a question goes: necklace hops around a ring and the path a
//! session's working memory takes when it changes anchor.

use vstd::prelude::*;

verus! {

/// How many ring mates a satellite has a laser terminal pointed at, on each
/// side. One: each access satellite carries two necklace terminals aimed at
/// its immediate neighbours.
pub const NECKLACE_LINKS: usize = 1;

/// Distance between two ring positions as plain integers.
pub open spec fn abs_diff(a: int, b: int) -> int {
    if a >= b { a - b } else { b - a }
}

/// `ceil(a / b)` for a positive divisor.
pub open spec fn ceil_div(a: int, b: int) -> int {
    if a % b == 0 { a / b } else { a / b + 1 }
}

/// Places between two positions of a ring of `ring_size`, going whichever way
/// round is shorter.
pub open spec fn ring_distance(from_slot: int, to_slot: int, ring_size: int) -> int {
    let raw = abs_diff(from_slot, to_slot) % ring_size;
    if raw <= ring_size - raw { raw } else { ring_size - raw }
}

/// Fewest necklace hops between two ring positions when every hop closes
/// `links` places; `None` when the ring cannot relay at all.
pub open spec fn necklace_hops_spec(
    from_slot: int,
    to_slot: int,
    ring_size: int,
    links: int,
) -> Option<int> {
    if links == 0 || ring_size == 0 {
        None
    } else {
        Some(ceil_div(ring_distance(from_slot, to_slot, ring_size), links))
    }
}

/// Fewest necklace hops between two positions of one ring.
///
/// A ring is a circulant graph: each satellite links to the `links` on either
/// side, so the far side is `ring_size / 2` away and every hop closes `links`
/// of it. Returns `None` if the ring cannot relay at all.
pub fn necklace_hops(from_slot: usize, to_slot: usize, ring_size: usize, links: usize) -> (r:
    Option<usize>)
    ensures
        match r {
            Some(h) => necklace_hops_spec(
                from_slot as int,
                to_slot as int,
                ring_size as int,
                links as int,
            ) == Some(h as int),
            None => links == 0 || ring_size == 0,
        },
        // The hop count does not depend on which end the route starts from.
        necklace_hops_spec(from_slot as int, to_slot as int, ring_size as int, links as int)
            == necklace_hops_spec(to_slot as int, from_slot as int, ring_size as int, links as int),
        // Nothing is ever more than half a ring away.
        r matches Some(h) ==> h <= ceil_div(ring_size as int / 2, links as int),
        // Just enough hops: together they close the distance, one fewer would not.
        r matches Some(h) ==> h * links >= ring_distance(from_slot as int, to_slot as int, ring_size as int)
            && (h - 1) * links < ring_distance(from_slot as int, to_slot as int, ring_size as int),
{
    if links == 0 || ring_size == 0 {
        return None;
    }
    let diff: usize = if from_slot >= to_slot {
        from_slot - to_slot
    } else {
        to_slot - from_slot
    };
    let raw: usize = diff % ring_size;
    let around: usize = if raw <= ring_size - raw {
        raw
    } else {
        ring_size - raw
    };
    let q: usize = around / links;
    let h: usize = if around % links == 0 {
        q
    } else {
        q + 1
    };
    proof {
        assert(around <= ring_size as int / 2);
        lemma_ceil_div_monotone(around as int, ring_size as int / 2, links as int);
        lemma_hops_close_the_distance(from_slot as int, to_slot as int, ring_size as int, links as int);
    }
    Some(h)
}

/// The hop count is the fewest hops of `links` places each that together
/// cover the shorter way round: enough to reach the far slot, and one fewer
/// would fall short.
pub proof fn lemma_hops_close_the_distance(from_slot: int, to_slot: int, ring_size: int, links: int)
    requires
        ring_size > 0,
        links > 0,
    ensures
        necklace_hops_spec(from_slot, to_slot, ring_size, links) matches Some(h) && h * links >= ring_distance(
            from_slot,
            to_slot,
            ring_size,
        ) && (h - 1) * links < ring_distance(from_slot, to_slot, ring_size),
{
    let d = ring_distance(from_slot, to_slot, ring_size);
    assert(abs_diff(from_slot, to_slot) % ring_size >= 0);
    assert(d >= 0);
    let q = d / links;
    let r = d % links;
    assert(d == q * links + r && 0 <= r < links) by (nonlinear_arith)
        requires
            links > 0,
            q == d / links,
            r == d % links,
    ;
    if r == 0 {
        assert(q * links >= d && (q - 1) * links < d) by (nonlinear_arith)
            requires
                d == q * links + r,
                r == 0,
                links > 0,
        ;
    } else {
        assert((q + 1) * links >= d && q * links < d) by (nonlinear_arith)
            requires
                d == q * links + r,
                0 < r < links,
        ;
    }
}

/// `m` whole laps of a ring of `ring_size`.
pub open spec fn laps(m: int, ring_size: int) -> int {
    m * ring_size
}

/// Going `k` places one way or the other round a ring of `ring_size` leads
/// from `from_slot` to `to_slot`.
pub open spec fn steps_reach(from_slot: int, to_slot: int, ring_size: int, k: int) -> bool {
    exists|m: int|
        from_slot - to_slot - k == #[trigger] laps(m, ring_size) || from_slot - to_slot + k == laps(m, ring_size)
}

/// The ring distance is the shorter way round: that many places lead from
/// one slot to the other, no fewer do, and it is never more than half the ring.
pub proof fn lemma_ring_distance_is_shortest(from_slot: int, to_slot: int, ring_size: int)
    requires
        ring_size > 0,
    ensures
        0 <= ring_distance(from_slot, to_slot, ring_size),
        2 * ring_distance(from_slot, to_slot, ring_size) <= ring_size,
        steps_reach(from_slot, to_slot, ring_size, ring_distance(from_slot, to_slot, ring_size)),
        forall|k: int|
            k >= 0 && #[trigger] steps_reach(from_slot, to_slot, ring_size, k) ==> ring_distance(
                from_slot,
                to_slot,
                ring_size,
            ) <= k,
{
    let n = ring_size;
    let dd = from_slot - to_slot;
    let a = abs_diff(from_slot, to_slot);
    let raw = a % n;
    let q = a / n;
    vstd::arithmetic::div_mod::lemma_fundamental_div_mod(a, n);
    vstd::arithmetic::div_mod::lemma_mod_pos_bound(a, n);
    assert(a == q * n + raw);
    let d = ring_distance(from_slot, to_slot, n);
    // A witness: `raw` places one way, or `n - raw` the other.
    if dd >= 0 {
        if raw <= n - raw {
            assert(dd - d == laps(q, n));
        } else {
            assert(dd + d == laps(q + 1, n)) by (nonlinear_arith)
                requires
                    dd == q * n + raw,
                    d == n - raw,
            ;
        }
    } else {
        if raw <= n - raw {
            assert(dd + d == laps(-q, n)) by (nonlinear_arith)
                requires
                    dd == -(q * n + raw),
                    d == raw,
            ;
        } else {
            assert(dd - d == laps(-q - 1, n)) by (nonlinear_arith)
                requires
                    dd == -(q * n + raw),
                    d == n - raw,
            ;
        }
    }
    assert forall|k: int| k >= 0 && #[trigger] steps_reach(from_slot, to_slot, n, k) implies d <= k by {
        let m = choose|m: int| dd - k == #[trigger] laps(m, n) || dd + k == laps(m, n);
        // Up to whole laps, `k` is `raw` one way or `n - raw` the other.
        let s: int = if dd >= 0 { 1 } else { -1 };
        assert(s * dd == q * n + raw) by (nonlinear_arith)
            requires
                (s == 1 && dd == a) || (s == -1 && dd == -a),
                a == q * n + raw,
        ;
        if dd - k == laps(m, n) {
            let j = if dd >= 0 { q - m } else { -q - m };
            assert(k == j * n + s * raw) by (nonlinear_arith)
                requires
                    dd - k == m * n,
                    s * dd == q * n + raw,
                    s == 1 || s == -1,
                    j == (if s == 1 { q - m } else { -q - m }),
            ;
            lemma_lap_rest(k, j, n, raw, s);
        } else {
            let j = if dd >= 0 { m - q } else { m + q };
            assert(k == j * n - s * raw) by (nonlinear_arith)
                requires
                    dd + k == m * n,
                    s * dd == q * n + raw,
                    s == 1 || s == -1,
                    j == (if s == 1 { m - q } else { m + q }),
            ;
            lemma_lap_rest(k, j, n, raw, -s);
        }
    }
}

/// A non-negative `j` laps plus or minus `raw` is at least the shorter of
/// `raw` and `n - raw`.
proof fn lemma_lap_rest(k: int, j: int, n: int, raw: int, s: int)
    requires
        n > 0,
        0 <= raw < n,
        s == 1 || s == -1,
        k == j * n + s * raw,
        k >= 0,
    ensures
        (if raw <= n - raw { raw } else { n - raw }) <= k,
{
    assert(s * raw == raw || s * raw == -raw) by (nonlinear_arith)
        requires
            s == 1 || s == -1,
    ;
    assert(s == -1 ==> s * raw == -raw) by (nonlinear_arith);
    assert(s == 1 ==> s * raw == raw) by (nonlinear_arith);
    if j <= -1 {
        assert(j * n <= -n) by (nonlinear_arith)
            requires
                j <= -1,
                n > 0,
        ;
    } else if j == 0 {
    } else {
        assert(j * n >= n) by (nonlinear_arith)
            requires
                j >= 1,
                n > 0,
        ;
    }
}

/// `ceil_div` never decreases as its numerator grows.
pub proof fn lemma_ceil_div_monotone(a: int, b: int, d: int)
    requires
        0 <= a <= b,
        d > 0,
    ensures
        ceil_div(a, d) <= ceil_div(b, d),
{
    assert(a / d <= b / d) by (nonlinear_arith)
        requires
            0 <= a <= b,
            d > 0,
    ;
    if a % d != 0 && b % d == 0 {
        assert(a / d < b / d) by (nonlinear_arith)
            requires
                0 <= a <= b,
                d > 0,
                a % d != 0,
                b % d == 0,
        ;
    }
}

/// How working memory travels when a session changes anchor.
#[derive(Debug, Clone, Copy, PartialEq, Eq)]
pub enum MigrationPath {
    /// Straight across, over the frozen link inside one MEO plane.
    PlaneLink,
    /// Down to an access satellite and back up, two feeder hops.
    ThroughTheWheel,
}

/// Which of the two an anchor change uses: plane mates hand a session straight
/// across, everything else goes back down through the wheel.
pub fn migration_path(from_plane: usize, to_plane: usize) -> (r: MigrationPath)
    ensures
        r == (if from_plane == to_plane {
            MigrationPath::PlaneLink
        } else {
            MigrationPath::ThroughTheWheel
        }),
{
    if from_plane == to_plane {
        MigrationPath::PlaneLink
    } else {
        MigrationPath::ThroughTheWheel
    }
}

} // verus!
