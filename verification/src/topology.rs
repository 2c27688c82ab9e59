//! How many optical terminals the backbone actually costs.
//!
//! A laser link is not a shared medium: each end needs its own terminal, so a
//! satellite holding `n` links at once carries `n` terminals. Which links
//! exist is therefore a hardware question, answered here for four topologies:
//! every session reaching its anchor directly, every access satellite feeding
//! one gateway anchor, rings pooling their traffic over a few feeder hosts,
//! and rings of identical satellites pooling over windows of neighbours.

use vstd::prelude::*;
use std::collections::BTreeMap;
use crate::window_pool::{
    anchor_list, anchor_list_exec, anchor_terminals, anchor_terminals_exec, placed, placed_exec,
    pool_width, pool_width_exec, ring_anchor_pairs, ring_anchor_pairs_exec, ring_list, ring_list_exec,
    ring_worst, worst_share, worst_share_exec,
};
use crate::distinct::{
    count_first, distinct, distinct_pairs, distinct_usize, firsts, lemma_distinct_props, partner_counts,
    partner_counts_exec, sort_usize, sorted_asc, usize_le, lemma_usize_le_total, pair_keys, partners,
    lemma_partner_counts_are_partner_sets,
};
use vstd::relations::sorted_by;
use vstd::multiset::Multiset;

verus! {

/// One session: which access satellite carries it, which anchor holds it.
#[derive(Debug, Clone, Copy, PartialEq, Eq, Structural)]
pub struct Session {
    /// Flat index of the serving access satellite.
    pub access: usize,
    /// Index of the anchor holding the working memory.
    pub anchor: usize,
}

/// Simultaneous links each side must hold, at one instant.
#[derive(Debug, Clone, PartialEq, Eq)]
pub struct TerminalDemand {
    /// Terminals needed on each access satellite carrying anything, ascending.
    pub per_access: Vec<usize>,
    /// The same for each anchor.
    pub per_anchor: Vec<usize>,
    /// Distinct links in the sky.
    pub links: usize,
}

/// (access, anchor) of every session.
pub open spec fn session_pairs(ss: Seq<Session>) -> Seq<(usize, usize)> {
    ss.map_values(|s: Session| (s.access, s.anchor))
}

/// (anchor, access) of every session.
pub open spec fn anchor_pairs(ss: Seq<Session>) -> Seq<(usize, usize)> {
    ss.map_values(|s: Session| (s.anchor, s.access))
}

/// `v` followed by `k` copies of `x`.
pub open spec fn repeat(x: usize, k: nat) -> Seq<usize> {
    Seq::new(k, |i: int| x)
}

/// Each entry of `xs` repeated `k` times, in order.
pub open spec fn repeat_each(xs: Seq<usize>, k: nat) -> Seq<usize>
    decreases xs.len(),
{
    if xs.len() == 0 {
        Seq::empty()
    } else {
        repeat_each(xs.drop_last(), k) + repeat(xs.last(), k)
    }
}

/// `ceil(a / b)` for a positive divisor.
pub open spec fn div_ceil(a: nat, b: nat) -> nat {
    if a % b == 0 {
        a / b
    } else {
        a / b + 1
    }
}

pub(crate) fn div_ceil_exec(a: usize, b: usize) -> (r: usize)
    requires
        b > 0,
    ensures
        r == div_ceil(a as nat, b as nat),
{
    let q = a / b;
    if a % b == 0 {
        q
    } else {
        assert(q < a) by (nonlinear_arith)
            requires
                q == a / b,
                b > 0,
                a % b != 0,
        ;
        q + 1
    }
}

impl TerminalDemand {
    /// Most terminals any one access satellite must hold: the last entry of
    /// the ascending list, or 0 when nothing is carried.
    pub fn max_access(&self) -> (r: usize)
        ensures
            r == if self.per_access@.len() == 0 {
                0
            } else {
                self.per_access@.last()
            },
    {
        if self.per_access.len() == 0 {
            0
        } else {
            self.per_access[self.per_access.len() - 1]
        }
    }

    /// Most feeder terminals any one anchor must hold.
    pub fn max_anchor(&self) -> (r: usize)
        ensures
            r == if self.per_anchor@.len() == 0 {
                0
            } else {
                self.per_anchor@.last()
            },
    {
        if self.per_anchor.len() == 0 {
            0
        } else {
            self.per_anchor[self.per_anchor.len() - 1]
        }
    }
}

fn session_pairs_exec(sessions: &[Session]) -> (r: Vec<(usize, usize)>)
    ensures
        r@ == session_pairs(sessions@),
{
    let mut r: Vec<(usize, usize)> = Vec::new();
    let mut i: usize = 0;
    while i < sessions.len()
        invariant
            i <= sessions@.len(),
            r@ == session_pairs(sessions@).take(i as int),
        decreases sessions@.len() - i,
    {
        r.push((sessions[i].access, sessions[i].anchor));
        proof {
            assert(session_pairs(sessions@).take(i as int + 1) =~= session_pairs(sessions@).take(i as int).push(
                (sessions@[i as int].access, sessions@[i as int].anchor),
            ));
        }
        i = i + 1;
    }
    assert(session_pairs(sessions@).take(i as int) =~= session_pairs(sessions@));
    r
}

fn swap_pairs(ps: &Vec<(usize, usize)>) -> (r: Vec<(usize, usize)>)
    ensures
        r@ == ps@.map_values(|p: (usize, usize)| (p.1, p.0)),
{
    let mut r: Vec<(usize, usize)> = Vec::new();
    let mut i: usize = 0;
    while i < ps.len()
        invariant
            i <= ps@.len(),
            r@ == ps@.map_values(|p: (usize, usize)| (p.1, p.0)).take(i as int),
        decreases ps@.len() - i,
    {
        r.push((ps[i].1, ps[i].0));
        proof {
            let f = |p: (usize, usize)| (p.1, p.0);
            assert(ps@.map_values(f).take(i as int + 1) =~= ps@.map_values(f).take(i as int).push(f(ps@[i as int])));
        }
        i = i + 1;
    }
    assert(ps@.map_values(|p: (usize, usize)| (p.1, p.0)).take(i as int) =~= ps@.map_values(
        |p: (usize, usize)| (p.1, p.0),
    ));
    r
}

/// Terminals required when every session reaches its anchor directly: no
/// ring-to-ring links, no anchor-to-anchor links.
///
/// One link per distinct (access satellite, anchor) pair. Two sessions sharing
/// both ends share a link, so this counts pairs, never sessions.
pub fn direct_demand(sessions: &[Session]) -> (d: TerminalDemand)
    ensures
        d.per_access@ == partner_counts(session_pairs(sessions@)),
        d.per_anchor@ == partner_counts(anchor_pairs(sessions@)),
        d.links == distinct(session_pairs(sessions@)).len(),
        // One terminal per distinct far end: per anchor, its distinct access
        // satellites; per access satellite, its distinct anchors.
        d.per_anchor@ == sorted_asc(
            pair_keys(anchor_pairs(sessions@)).map_values(|a: usize| accesses_at(sessions@, a).len() as usize),
        ),
        d.per_access@ == sorted_asc(
            pair_keys(session_pairs(sessions@)).map_values(|x: usize| anchors_of(sessions@, x).len() as usize),
        ),
{
    proof {
        lemma_direct_counts(sessions@);
    }
    let pairs = session_pairs_exec(sessions);
    let flipped = swap_pairs(&pairs);
    assert(flipped@ =~= anchor_pairs(sessions@));
    let per_access = partner_counts_exec(&pairs);
    let per_anchor = partner_counts_exec(&flipped);
    let links = distinct_pairs(&pairs).len();
    TerminalDemand { per_access, per_anchor, links }
}

/// A terminal is a pipe, not a circuit: a session repeating one already
/// carried, both ends the same, changes nothing the direct topology costs.
pub proof fn lemma_repeated_session_costs_nothing(ss: Seq<Session>, s: Session)
    requires
        ss.contains(s),
    ensures
        partner_counts(session_pairs(ss.push(s))) == partner_counts(session_pairs(ss)),
        partner_counts(anchor_pairs(ss.push(s))) == partner_counts(anchor_pairs(ss)),
        distinct(session_pairs(ss.push(s))) == distinct(session_pairs(ss)),
{
    let i = choose|i: int| 0 <= i < ss.len() && ss[i] == s;
    assert(session_pairs(ss.push(s)) =~= session_pairs(ss).push((s.access, s.anchor)));
    assert(anchor_pairs(ss.push(s)) =~= anchor_pairs(ss).push((s.anchor, s.access)));
    assert(session_pairs(ss)[i] == (s.access, s.anchor));
    assert(anchor_pairs(ss)[i] == (s.anchor, s.access));
    lemma_distinct_props(session_pairs(ss));
    lemma_distinct_props(anchor_pairs(ss));
    assert(session_pairs(ss).push((s.access, s.anchor)).drop_last() =~= session_pairs(ss));
    assert(anchor_pairs(ss).push((s.anchor, s.access)).drop_last() =~= anchor_pairs(ss));
    assert(session_pairs(ss).contains((s.access, s.anchor)));
    assert(anchor_pairs(ss).contains((s.anchor, s.access)));
    assert(distinct(session_pairs(ss.push(s))) == distinct(session_pairs(ss)));
    assert(distinct(anchor_pairs(ss.push(s))) == distinct(anchor_pairs(ss)));
}

/// Sessions whose access satellite `gateway` maps to an anchor, as
/// (gateway anchor, access) pairs, in session order.
pub open spec fn gateway_pairs(ss: Seq<Session>, gateway: Map<usize, usize>) -> Seq<(usize, usize)>
    decreases ss.len(),
{
    if ss.len() == 0 {
        Seq::empty()
    } else {
        let rest = gateway_pairs(ss.drop_last(), gateway);
        let s = ss.last();
        if gateway.contains_key(s.access) {
            rest.push((gateway[s.access], s.access))
        } else {
            rest
        }
    }
}

/// Terminals required when each access satellite feeds one gateway anchor and
/// the shell carries traffic onward to whichever anchor holds the session.
///
/// `gateway` names the anchor each access satellite feeds; sessions on a
/// satellite it does not name are skipped. The wheel's side collapses to one
/// terminal per satellite carrying anything; `per_anchor` counts feeder
/// terminals only.
pub fn gateway_demand(sessions: &[Session], gateway: &BTreeMap<usize, usize>) -> (d: TerminalDemand)
    ensures
        d.per_anchor@ == partner_counts(gateway_pairs(sessions@, gateway@)),
        d.links == distinct(firsts(gateway_pairs(sessions@, gateway@).map_values(
            |p: (usize, usize)| (p.1, p.0),
        ))).len(),
        d.per_access@ == repeat(1, d.links as nat),
{
    let mut pairs: Vec<(usize, usize)> = Vec::new();
    let mut i: usize = 0;
    while i < sessions.len()
        invariant
            i <= sessions@.len(),
            pairs@ == gateway_pairs(sessions@.take(i as int), gateway@),
        decreases sessions@.len() - i,
    {
        let s = sessions[i];
        proof {
            assert(sessions@.take(i as int + 1).drop_last() =~= sessions@.take(i as int));
        }
        match gateway.get(&s.access) {
            Some(gw) => {
                pairs.push((*gw, s.access));
            },
            None => {},
        }
        i = i + 1;
    }
    assert(sessions@.take(i as int) =~= sessions@);
    let per_anchor = partner_counts_exec(&pairs);
    let mut seen: Vec<usize> = Vec::new();
    let mut k: usize = 0;
    while k < pairs.len()
        invariant
            k <= pairs@.len(),
            seen@ == firsts(pairs@.map_values(|p: (usize, usize)| (p.1, p.0))).take(k as int),
        decreases pairs@.len() - k,
    {
        seen.push(pairs[k].1);
        proof {
            let f = firsts(pairs@.map_values(|p: (usize, usize)| (p.1, p.0)));
            assert(f.take(k as int + 1) =~= f.take(k as int).push(pairs@[k as int].1));
        }
        k = k + 1;
    }
    assert(firsts(pairs@.map_values(|p: (usize, usize)| (p.1, p.0))).take(k as int) =~= firsts(
        pairs@.map_values(|p: (usize, usize)| (p.1, p.0)),
    ));
    let accesses = distinct_usize(&seen);
    let links = accesses.len();
    let mut per_access: Vec<usize> = Vec::new();
    let mut k: usize = 0;
    while k < links
        invariant
            k <= links,
            per_access@ == repeat(1, k as nat),
        decreases links - k,
    {
        per_access.push(1);
        proof {
            assert(per_access@ =~= repeat(1, k as nat + 1));
        }
        k = k + 1;
    }
    TerminalDemand { per_access, per_anchor, links }
}

/// (group of session `i`, anchor of session `i`).
pub open spec fn group_pairs(ss: Seq<Session>, groups: Seq<usize>) -> Seq<(usize, usize)> {
    Seq::new(ss.len(), |i: int| (groups[i], ss[i].anchor))
}

/// (anchor of session `i`, group of session `i`).
pub open spec fn anchor_group_pairs(ss: Seq<Session>, groups: Seq<usize>) -> Seq<(usize, usize)> {
    Seq::new(ss.len(), |i: int| (ss[i].anchor, groups[i]))
}

/// The groups of the sessions anchor `a` holds.
pub open spec fn groups_at(ss: Seq<Session>, groups: Seq<usize>, a: usize) -> Set<usize> {
    Set::new(|g: usize| exists|i: int| 0 <= i < ss.len() && ss[i].anchor == a && groups[i] == g)
}

/// The access satellites carrying sessions anchor `a` holds.
pub open spec fn accesses_at(ss: Seq<Session>, a: usize) -> Set<usize> {
    Set::new(|x: usize| exists|i: int| 0 <= i < ss.len() && ss[i].anchor == a && ss[i].access == x)
}

/// The anchors holding sessions that access satellite `x` carries.
pub open spec fn anchors_of(ss: Seq<Session>, x: usize) -> Set<usize> {
    Set::new(|a: usize| exists|i: int| 0 <= i < ss.len() && ss[i].access == x && ss[i].anchor == a)
}

/// Some session is held at anchor `a`.
pub open spec fn holds_some(ss: Seq<Session>, a: usize) -> bool {
    exists|i: int| 0 <= i < ss.len() && ss[i].anchor == a
}

/// Some session is carried by access satellite `x`.
pub open spec fn carries_some(ss: Seq<Session>, x: usize) -> bool {
    exists|i: int| 0 <= i < ss.len() && ss[i].access == x
}

/// With rings pooling, an anchor needs one feeder terminal per distinct group
/// among its sessions, whichever satellites of the group carry them: the
/// per-anchor counts list, ascending, that number for each anchor holding a
/// session, once per anchor.
pub proof fn lemma_relay_anchor_counts(ss: Seq<Session>, groups: Seq<usize>)
    requires
        groups.len() == ss.len(),
    ensures
        pair_keys(anchor_group_pairs(ss, groups)).no_duplicates(),
        forall|a: usize| #[trigger] pair_keys(anchor_group_pairs(ss, groups)).contains(a) <==> holds_some(ss, a),
        partner_counts(anchor_group_pairs(ss, groups)) == sorted_asc(
            pair_keys(anchor_group_pairs(ss, groups)).map_values(|a: usize| groups_at(ss, groups, a).len() as usize),
        ),
{
    let ag = anchor_group_pairs(ss, groups);
    lemma_partner_counts_are_partner_sets(ag);
    assert forall|a: usize| partners(ag, a) == groups_at(ss, groups, a) by {
        assert forall|g: usize| ag.contains((a, g)) <==> groups_at(ss, groups, a).contains(g) by {
            if ag.contains((a, g)) {
                let i = choose|i: int| 0 <= i < ag.len() && ag[i] == (a, g);
                assert(ss[i].anchor == a && groups[i] == g);
            }
            if groups_at(ss, groups, a).contains(g) {
                let i = choose|i: int| 0 <= i < ss.len() && ss[i].anchor == a && groups[i] == g;
                assert(ag[i] == (a, g));
            }
        }
        assert(partners(ag, a) =~= groups_at(ss, groups, a));
    }
    assert forall|a: usize| #[trigger] pair_keys(ag).contains(a) <==> holds_some(ss, a) by {
        if pair_keys(ag).contains(a) {
            let g = choose|g: usize| ag.contains((a, g));
            let i = choose|i: int| 0 <= i < ag.len() && ag[i] == (a, g);
            assert(ss[i].anchor == a);
        }
        if holds_some(ss, a) {
            let i = choose|i: int| 0 <= i < ss.len() && ss[i].anchor == a;
            assert(ag[i] == (a, groups[i]));
            assert(ag.contains((a, groups[i])));
        }
    }
    assert(pair_keys(ag).map_values(|a: usize| partners(ag, a).len() as usize) =~= pair_keys(ag).map_values(
        |a: usize| groups_at(ss, groups, a).len() as usize,
    ));
}

/// With every session reaching its anchor directly, an anchor needs one
/// terminal per distinct access satellite among its sessions, and an access
/// satellite one per distinct anchor: each list holds, ascending, that number
/// once per anchor (access satellite) with a session.
pub proof fn lemma_direct_counts(ss: Seq<Session>)
    ensures
        pair_keys(anchor_pairs(ss)).no_duplicates(),
        forall|a: usize| #[trigger] pair_keys(anchor_pairs(ss)).contains(a) <==> holds_some(ss, a),
        partner_counts(anchor_pairs(ss)) == sorted_asc(
            pair_keys(anchor_pairs(ss)).map_values(|a: usize| accesses_at(ss, a).len() as usize),
        ),
        pair_keys(session_pairs(ss)).no_duplicates(),
        forall|x: usize| #[trigger] pair_keys(session_pairs(ss)).contains(x) <==> carries_some(ss, x),
        partner_counts(session_pairs(ss)) == sorted_asc(
            pair_keys(session_pairs(ss)).map_values(|x: usize| anchors_of(ss, x).len() as usize),
        ),
{
    let ap = anchor_pairs(ss);
    let sp = session_pairs(ss);
    lemma_partner_counts_are_partner_sets(ap);
    lemma_partner_counts_are_partner_sets(sp);
    assert forall|a: usize| partners(ap, a) == accesses_at(ss, a) by {
        assert forall|x: usize| ap.contains((a, x)) <==> accesses_at(ss, a).contains(x) by {
            if ap.contains((a, x)) {
                let i = choose|i: int| 0 <= i < ap.len() && ap[i] == (a, x);
                assert(ss[i].anchor == a && ss[i].access == x);
            }
            if accesses_at(ss, a).contains(x) {
                let i = choose|i: int| 0 <= i < ss.len() && ss[i].anchor == a && ss[i].access == x;
                assert(ap[i] == (a, x));
            }
        }
        assert(partners(ap, a) =~= accesses_at(ss, a));
    }
    assert forall|x: usize| partners(sp, x) == anchors_of(ss, x) by {
        assert forall|a: usize| sp.contains((x, a)) <==> anchors_of(ss, x).contains(a) by {
            if sp.contains((x, a)) {
                let i = choose|i: int| 0 <= i < sp.len() && sp[i] == (x, a);
                assert(ss[i].access == x && ss[i].anchor == a);
            }
            if anchors_of(ss, x).contains(a) {
                let i = choose|i: int| 0 <= i < ss.len() && ss[i].access == x && ss[i].anchor == a;
                assert(sp[i] == (x, a));
            }
        }
        assert(partners(sp, x) =~= anchors_of(ss, x));
    }
    assert forall|a: usize| #[trigger] pair_keys(ap).contains(a) <==> holds_some(ss, a) by {
        if pair_keys(ap).contains(a) {
            let y = choose|y: usize| ap.contains((a, y));
            let i = choose|i: int| 0 <= i < ap.len() && ap[i] == (a, y);
            assert(ss[i].anchor == a);
        }
        if holds_some(ss, a) {
            let i = choose|i: int| 0 <= i < ss.len() && ss[i].anchor == a;
            assert(ap[i] == (a, ss[i].access));
            assert(ap.contains((a, ss[i].access)));
        }
    }
    assert forall|x: usize| #[trigger] pair_keys(sp).contains(x) <==> carries_some(ss, x) by {
        if pair_keys(sp).contains(x) {
            let y = choose|y: usize| sp.contains((x, y));
            let i = choose|i: int| 0 <= i < sp.len() && sp[i] == (x, y);
            assert(ss[i].access == x);
        }
        if carries_some(ss, x) {
            let i = choose|i: int| 0 <= i < ss.len() && ss[i].access == x;
            assert(sp[i] == (x, ss[i].anchor));
            assert(sp.contains((x, ss[i].anchor)));
        }
    }
    assert(pair_keys(ap).map_values(|a: usize| partners(ap, a).len() as usize) =~= pair_keys(ap).map_values(
        |a: usize| accesses_at(ss, a).len() as usize,
    ));
    assert(pair_keys(sp).map_values(|x: usize| partners(sp, x).len() as usize) =~= pair_keys(sp).map_values(
        |x: usize| anchors_of(ss, x).len() as usize,
    ));
}

/// For each ring, `hosts` feeder hosts sharing the ring's distinct anchors as
/// evenly as they can, each carrying `ceil(anchors / hosts)`; ascending.
pub open spec fn host_loads(ss: Seq<Session>, groups: Seq<usize>, hosts: nat) -> Seq<usize> {
    let dp = distinct(group_pairs(ss, groups));
    sorted_asc(
        repeat_each(
            distinct(firsts(dp)).map_values(|g: usize| div_ceil(count_first(dp, g), hosts) as usize),
            hosts,
        ),
    )
}

/// The group `group_of` gives each session's access satellite, one call per
/// session in session order.
fn groups_of(sessions: &[Session], group_of: &impl Fn(usize) -> usize) -> (gs: Vec<usize>)
    requires
        forall|x: usize| call_requires(*group_of, (x,)),
    ensures
        gs@.len() == sessions@.len(),
        forall|i: int| 0 <= i < gs@.len() ==> call_ensures(*group_of, (sessions@[i].access,), #[trigger] gs@[i]),
{
    let mut gs: Vec<usize> = Vec::new();
    let mut i: usize = 0;
    while i < sessions.len()
        invariant
            i <= sessions@.len(),
            forall|x: usize| call_requires(*group_of, (x,)),
            gs@.len() == i,
            forall|k: int| 0 <= k < i ==> call_ensures(*group_of, (sessions@[k].access,), #[trigger] gs@[k]),
        decreases sessions@.len() - i,
    {
        let g = group_of(sessions[i].access);
        gs.push(g);
        i = i + 1;
    }
    gs
}

/// Terminals required when a ring pools its traffic over intra-ring links and
/// only `hosts` of its satellites carry feeder terminals.
///
/// A ring reaching `u` distinct anchors needs `u` feeder links however they
/// are arranged, and spreading them over `hosts` feeder-equipped satellites
/// costs each host `ceil(u / hosts)`. `group_of` names each access
/// satellite's ring. `per_access` counts hosts only.
pub fn relay_demand(sessions: &[Session], group_of: impl Fn(usize) -> usize, hosts: usize) -> (d:
    TerminalDemand)
    requires
        hosts > 0,
        forall|x: usize| call_requires(group_of, (x,)),
    ensures
        exists|groups: Seq<usize>|
            {
                &&& groups.len() == sessions@.len()
                &&& forall|i: int|
                    0 <= i < groups.len() ==> call_ensures(group_of, (sessions@[i].access,), #[trigger] groups[i])
                &&& d.links == distinct(group_pairs(sessions@, groups)).len()
                &&& d.per_access@ == host_loads(sessions@, groups, hosts as nat)
                &&& d.per_anchor@ == partner_counts(anchor_group_pairs(sessions@, groups))
                // One feeder terminal per distinct group reaching each anchor.
                &&& d.per_anchor@ == sorted_asc(
                    pair_keys(anchor_group_pairs(sessions@, groups)).map_values(
                        |a: usize| groups_at(sessions@, groups, a).len() as usize,
                    ),
                )
                &&& forall|a: usize|
                    #[trigger] pair_keys(anchor_group_pairs(sessions@, groups)).contains(a) <==> holds_some(
                        sessions@,
                        a,
                    )
            },
{
    let gs = groups_of(sessions, &group_of);
    let n = sessions.len();
    let mut gp: Vec<(usize, usize)> = Vec::new();
    let mut ag: Vec<(usize, usize)> = Vec::new();
    let mut i: usize = 0;
    while i < n
        invariant
            i <= n,
            n == sessions@.len(),
            gs@.len() == n,
            gp@ == group_pairs(sessions@, gs@).take(i as int),
            ag@ == anchor_group_pairs(sessions@, gs@).take(i as int),
        decreases n - i,
    {
        gp.push((gs[i], sessions[i].anchor));
        ag.push((sessions[i].anchor, gs[i]));
        proof {
            assert(group_pairs(sessions@, gs@).take(i as int + 1) =~= group_pairs(sessions@, gs@).take(i as int).push(
                (gs@[i as int], sessions@[i as int].anchor),
            ));
            assert(anchor_group_pairs(sessions@, gs@).take(i as int + 1) =~= anchor_group_pairs(sessions@, gs@).take(
                i as int,
            ).push((sessions@[i as int].anchor, gs@[i as int])));
        }
        i = i + 1;
    }
    assert(group_pairs(sessions@, gs@).take(i as int) =~= group_pairs(sessions@, gs@));
    assert(anchor_group_pairs(sessions@, gs@).take(i as int) =~= anchor_group_pairs(sessions@, gs@));
    let dp = distinct_pairs(&gp);
    let links = dp.len();
    let mut fs: Vec<usize> = Vec::new();
    let mut k: usize = 0;
    while k < dp.len()
        invariant
            k <= dp@.len(),
            fs@ == firsts(dp@).take(k as int),
        decreases dp@.len() - k,
    {
        fs.push(dp[k].0);
        proof {
            assert(firsts(dp@).take(k as int + 1) =~= firsts(dp@).take(k as int).push(dp@[k as int].0));
        }
        k = k + 1;
    }
    assert(firsts(dp@).take(k as int) =~= firsts(dp@));
    let rings = distinct_usize(&fs);
    let ghost shares = rings@.map_values(|g: usize| div_ceil(count_first(dp@, g), hosts as nat) as usize);
    let mut loads: Vec<usize> = Vec::new();
    let mut r: usize = 0;
    while r < rings.len()
        invariant
            r <= rings@.len(),
            hosts > 0,
            shares == rings@.map_values(|g: usize| div_ceil(count_first(dp@, g), hosts as nat) as usize),
            loads@ == repeat_each(shares.take(r as int), hosts as nat),
        decreases rings@.len() - r,
    {
        let u = count_anchors_of_group(&dp, rings[r]);
        // Split the ring's links as evenly as the hosts allow.
        let each = div_ceil_exec(u, hosts);
        let mut h: usize = 0;
        let ghost before = loads@;
        while h < hosts
            invariant
                h <= hosts,
                loads@ == before + repeat(each, h as nat),
            decreases hosts - h,
        {
            loads.push(each);
            proof {
                assert(before + repeat(each, h as nat + 1) =~= (before + repeat(each, h as nat)).push(each));
            }
            h = h + 1;
        }
        proof {
            assert(shares.take(r as int + 1).drop_last() =~= shares.take(r as int));
            assert(shares[r as int] == each);
        }
        r = r + 1;
    }
    assert(shares.take(r as int) =~= shares);
    let per_access = sort_usize(loads);
    let per_anchor = partner_counts_exec(&ag);
    proof {
        assert(per_access@ == host_loads(sessions@, gs@, hosts as nat));
        assert(links == distinct(group_pairs(sessions@, gs@)).len());
        assert(per_anchor@ == partner_counts(anchor_group_pairs(sessions@, gs@)));
        lemma_relay_anchor_counts(sessions@, gs@);
    }
    TerminalDemand { per_access, per_anchor, links }
}

fn count_anchors_of_group(dp: &Vec<(usize, usize)>, g: usize) -> (c: usize)
    ensures
        c == count_first(dp@, g),
{
    let mut c: usize = 0;
    let mut i: usize = 0;
    while i < dp.len()
        invariant
            i <= dp@.len(),
            c == count_first(dp@.take(i as int), g),
            c <= i,
        decreases dp@.len() - i,
    {
        proof {
            assert(dp@.take(i as int + 1).drop_last() =~= dp@.take(i as int));
        }
        if dp[i].0 == g {
            c = c + 1;
        }
        i = i + 1;
    }
    assert(dp@.take(i as int) =~= dp@);
    c
}

/// The (ring, position) `slot_of` gives each session's access satellite, one
/// call per session in session order.
fn slots_of(sessions: &[Session], slot_of: &impl Fn(usize) -> (usize, usize)) -> (slots: Vec<(usize, usize)>)
    requires
        forall|x: usize| call_requires(*slot_of, (x,)),
    ensures
        slots@.len() == sessions@.len(),
        forall|i: int| 0 <= i < slots@.len() ==> call_ensures(*slot_of, (sessions@[i].access,), #[trigger] slots@[i]),
{
    let mut slots: Vec<(usize, usize)> = Vec::new();
    let mut i: usize = 0;
    while i < sessions.len()
        invariant
            i <= sessions@.len(),
            forall|x: usize| call_requires(*slot_of, (x,)),
            slots@.len() == i,
            forall|k: int| 0 <= k < i ==> call_ensures(*slot_of, (sessions@[k].access,), #[trigger] slots@[k]),
        decreases sessions@.len() - i,
    {
        let slot = slot_of(sessions[i].access);
        slots.push(slot);
        i = i + 1;
    }
    slots
}

/// Whether each position `0..ring_size` of `ring` can relay, one call each.
fn availability_row(available: &impl Fn(usize, usize) -> bool, ring: usize, ring_size: usize) -> (row: Vec<bool>)
    requires
        forall|r: usize, p: usize| call_requires(*available, (r, p)),
    ensures
        row@.len() == ring_size,
        forall|p: int| 0 <= p < ring_size ==> call_ensures(*available, (ring, p as usize), #[trigger] row@[p]),
{
    let mut row: Vec<bool> = Vec::new();
    let mut p: usize = 0;
    while p < ring_size
        invariant
            p <= ring_size,
            forall|r: usize, q: usize| call_requires(*available, (r, q)),
            row@.len() == p,
            forall|q: int| 0 <= q < p ==> call_ensures(*available, (ring, q as usize), #[trigger] row@[q]),
        decreases ring_size - p,
    {
        let b = available(ring, p);
        row.push(b);
        p = p + 1;
    }
    row
}

/// `d` is what a fleet of identical satellites needs, given where each
/// session sits (`slots`) and which positions of each ring can relay
/// (`avail[k]` for the `k`-th ring of `ring_list`):
/// every satellite of a ring carries its busiest window's share; the ring
/// needs one link per distinct anchor its on-ring sessions want; an anchor
/// holds one feeder terminal per window that needs it, on each ring.
pub open spec fn uniform_demand_is(
    d: TerminalDemand,
    ss: Seq<Session>,
    slots: Seq<(usize, usize)>,
    avail: Seq<Seq<bool>>,
    ring_size: nat,
    reach: nat,
) -> bool {
    let pl = placed(ss, slots);
    let w = pool_width(reach, ring_size);
    &&& d.per_access@ == sorted_asc(repeat_each(ring_worst(pl, avail, w, ring_size), ring_size))
    &&& d.links == distinct(ring_anchor_pairs(pl, ring_size)).len()
    &&& d.per_anchor@ == sorted_asc(
        anchor_list(pl).map_values(|a: usize| anchor_terminals(pl, a, ring_size, w) as usize),
    )
}

/// Terminals required when every satellite is the same satellite.
///
/// A fleet is built to one drawing, so the question is how many terminals
/// *each* satellite must carry, since every one of them carries the worst
/// case. A session on satellite `i` can use a feeder terminal on any
/// satellite within `reach` hops, so a window of `2·reach + 1` satellites
/// (never more than the ring) pools its terminals:
///
/// ```text
///     terminals per satellite = max over windows of ceil(anchors / window)
/// ```
///
/// `slot_of` gives each access satellite its (ring, position); `ring_size`
/// is how many satellites are in a ring, and the window wraps. `available`
/// says whether the satellite at a (ring, position) can act as a relay at
/// all: a window with nothing switched on cannot pool, and whichever
/// satellite holds the sessions carries their anchors alone.
pub fn uniform_relay_demand(
    sessions: &[Session],
    slot_of: impl Fn(usize) -> (usize, usize),
    available: impl Fn(usize, usize) -> bool,
    ring_size: usize,
    reach: usize,
) -> (d: TerminalDemand)
    requires
        ring_size > 0,
        reach > 0,
        forall|x: usize| call_requires(slot_of, (x,)),
        forall|r: usize, p: usize| call_requires(available, (r, p)),
    ensures
        exists|slots: Seq<(usize, usize)>, avail: Seq<Seq<bool>>|
            {
                &&& slots.len() == sessions@.len()
                &&& forall|i: int|
                    0 <= i < slots.len() ==> call_ensures(slot_of, (sessions@[i].access,), #[trigger] slots[i])
                &&& avail.len() == ring_list(placed(sessions@, slots)).len()
                &&& forall|k: int|
                    0 <= k < avail.len() ==> (#[trigger] avail[k]).len() == ring_size
                &&& forall|k: int, p: int|
                    0 <= k < avail.len() && 0 <= p < ring_size ==> call_ensures(
                        available,
                        (ring_list(placed(sessions@, slots))[k], p as usize),
                        #[trigger] avail[k][p],
                    )
                &&& uniform_demand_is(d, sessions@, slots, avail, ring_size as nat, reach as nat)
            },
{
    let window = pool_width_exec(reach, ring_size);
    let slots = slots_of(sessions, &slot_of);
    let pl = placed_exec(sessions, &slots);
    let rings = ring_list_exec(&pl);
    let ghost mut avail: Seq<Seq<bool>> = Seq::empty();
    let mut loads: Vec<usize> = Vec::new();
    let mut k: usize = 0;
    while k < rings.len()
        invariant
            k <= rings@.len(),
            rings@ == ring_list(pl@),
            forall|r: usize, p: usize| call_requires(available, (r, p)),
            avail.len() == k,
            forall|j: int| 0 <= j < k ==> (#[trigger] avail[j]).len() == ring_size,
            forall|j: int, p: int|
                0 <= j < k && 0 <= p < ring_size ==> call_ensures(available, (rings@[j], p as usize), #[trigger] avail[j][p]),
            loads@ == repeat_each(
                Seq::new(k as nat, |j: int| worst_share(pl@, avail[j], rings@[j], window as nat, ring_size as nat, ring_size as nat) as usize),
                ring_size as nat,
            ),
        decreases rings@.len() - k,
    {
        let row = availability_row(&available, rings[k], ring_size);
        let worst = worst_share_exec(&pl, &row, rings[k], window, ring_size);
        let ghost before = loads@;
        let mut h: usize = 0;
        while h < ring_size
            invariant
                h <= ring_size,
                loads@ == before + repeat(worst, h as nat),
            decreases ring_size - h,
        {
            loads.push(worst);
            proof {
                assert(before + repeat(worst, h as nat + 1) =~= (before + repeat(worst, h as nat)).push(worst));
            }
            h = h + 1;
        }
        proof {
            let old_avail = avail;
            avail = avail.push(row@);
            let f_old = Seq::new(k as nat, |j: int| worst_share(pl@, old_avail[j], rings@[j], window as nat, ring_size as nat, ring_size as nat) as usize);
            let f_new = Seq::new(k as nat + 1, |j: int| worst_share(pl@, avail[j], rings@[j], window as nat, ring_size as nat, ring_size as nat) as usize);
            assert(f_new.drop_last() =~= f_old);
            assert(f_new.last() == worst);
        }
        k = k + 1;
    }
    let per_access = sort_usize(loads);
    let links = distinct_pairs(&ring_anchor_pairs_exec(&pl, ring_size)).len();
    let anchors = anchor_list_exec(&pl);
    let mut terminals: Vec<usize> = Vec::new();
    let mut a: usize = 0;
    while a < anchors.len()
        invariant
            a <= anchors@.len(),
            ring_size > 0,
            window > 0,
            terminals@ == anchors@.map_values(
                |x: usize| anchor_terminals(pl@, x, ring_size as nat, window as nat) as usize,
            ).take(a as int),
        decreases anchors@.len() - a,
    {
        let t = anchor_terminals_exec(&pl, anchors[a], ring_size, window);
        terminals.push(t);
        proof {
            let f = anchors@.map_values(|x: usize| anchor_terminals(pl@, x, ring_size as nat, window as nat) as usize);
            assert(f.take(a as int + 1) =~= f.take(a as int).push(t));
        }
        a = a + 1;
    }
    assert(anchors@.map_values(|x: usize| anchor_terminals(pl@, x, ring_size as nat, window as nat) as usize).take(
        a as int,
    ) =~= anchors@.map_values(|x: usize| anchor_terminals(pl@, x, ring_size as nat, window as nat) as usize));
    let per_anchor = sort_usize(terminals);
    let d = TerminalDemand { per_access, per_anchor, links };
    proof {
        assert(Seq::new(k as nat, |j: int| worst_share(pl@, avail[j], rings@[j], window as nat, ring_size as nat, ring_size as nat) as usize)
            =~= ring_worst(pl@, avail, window as nat, ring_size as nat));
        assert(uniform_demand_is(d, sessions@, slots@, avail, ring_size as nat, reach as nat));
    }
    d
}

/// Entries of `ps` equal to `k`.
pub open spec fn count_pair(ps: Seq<(usize, usize)>, k: (usize, usize)) -> nat
    decreases ps.len(),
{
    if ps.len() == 0 {
        0
    } else {
        count_pair(ps.drop_last(), k) + if ps.last() == k {
            1nat
        } else {
            0nat
        }
    }
}

/// Sessions riding each distinct pair, ascending.
pub open spec fn pair_counts(ps: Seq<(usize, usize)>) -> Seq<usize> {
    sorted_asc(distinct(ps).map_values(|k: (usize, usize)| count_pair(ps, k) as usize))
}

proof fn lemma_count_pair_take(ps: Seq<(usize, usize)>, i: int, k: (usize, usize))
    requires
        0 <= i < ps.len(),
    ensures
        count_pair(ps.take(i + 1), k) == count_pair(ps.take(i), k) + if ps[i] == k {
            1nat
        } else {
            0nat
        },
{
    assert(ps.take(i + 1).drop_last() =~= ps.take(i));
}

proof fn lemma_count_pair_le(ps: Seq<(usize, usize)>, k: (usize, usize))
    ensures
        count_pair(ps, k) <= ps.len(),
    decreases ps.len(),
{
    if ps.len() > 0 {
        lemma_count_pair_le(ps.drop_last(), k);
    }
}

fn count_pair_exec(ps: &Vec<(usize, usize)>, k: (usize, usize)) -> (c: usize)
    ensures
        c == count_pair(ps@, k),
{
    let mut c: usize = 0;
    let mut i: usize = 0;
    while i < ps.len()
        invariant
            i <= ps@.len(),
            c == count_pair(ps@.take(i as int), k),
        decreases ps@.len() - i,
    {
        proof {
            lemma_count_pair_take(ps@, i as int, k);
            lemma_count_pair_le(ps@.take(i as int), k);
        }
        if ps[i].0 == k.0 && ps[i].1 == k.1 {
            c = c + 1;
        }
        i = i + 1;
    }
    assert(ps@.take(i as int) =~= ps@);
    c
}

/// Sessions riding each (access ring, anchor) pair, ascending.
///
/// With the wheel pooling a whole ring, an anchor holds exactly one telescope
/// per ring that talks to it, so every such pair is a single point of
/// failure: lose that telescope and every session in the bucket must move at
/// once. `ring_of` names each access satellite's ring.
pub fn pair_load(sessions: &[Session], ring_of: impl Fn(usize) -> usize) -> (out: Vec<usize>)
    requires
        forall|x: usize| call_requires(ring_of, (x,)),
    ensures
        exists|rings: Seq<usize>|
            {
                &&& rings.len() == sessions@.len()
                &&& forall|i: int|
                    0 <= i < rings.len() ==> call_ensures(ring_of, (sessions@[i].access,), #[trigger] rings[i])
                &&& out@ == pair_counts(group_pairs(sessions@, rings))
            },
{
    let rs = groups_of(sessions, &ring_of);
    let n = sessions.len();
    let mut ps: Vec<(usize, usize)> = Vec::new();
    let mut i: usize = 0;
    while i < n
        invariant
            i <= n,
            n == sessions@.len(),
            rs@.len() == n,
            ps@ == group_pairs(sessions@, rs@).take(i as int),
        decreases n - i,
    {
        ps.push((rs[i], sessions[i].anchor));
        proof {
            assert(group_pairs(sessions@, rs@).take(i as int + 1) =~= group_pairs(sessions@, rs@).take(i as int).push(
                (rs@[i as int], sessions@[i as int].anchor),
            ));
        }
        i = i + 1;
    }
    assert(group_pairs(sessions@, rs@).take(i as int) =~= group_pairs(sessions@, rs@));
    let keys = distinct_pairs(&ps);
    let mut counts: Vec<usize> = Vec::new();
    let mut k: usize = 0;
    while k < keys.len()
        invariant
            k <= keys@.len(),
            counts@ == keys@.map_values(|q: (usize, usize)| count_pair(ps@, q) as usize).take(k as int),
        decreases keys@.len() - k,
    {
        counts.push(count_pair_exec(&ps, keys[k]));
        proof {
            let f = |q: (usize, usize)| count_pair(ps@, q) as usize;
            assert(keys@.map_values(f).take(k as int + 1) =~= keys@.map_values(f).take(k as int).push(f(keys@[k as int])));
        }
        k = k + 1;
    }
    assert(keys@.map_values(|q: (usize, usize)| count_pair(ps@, q) as usize).take(k as int) =~= keys@.map_values(
        |q: (usize, usize)| count_pair(ps@, q) as usize,
    ));
    let out = sort_usize(counts);
    assert(out@ == pair_counts(group_pairs(sessions@, rs@)));
    out
}

/// Every per-access list of `ds`, concatenated in order.
pub open spec fn pooled_access(ds: Seq<TerminalDemand>) -> Seq<usize>
    decreases ds.len(),
{
    if ds.len() == 0 {
        Seq::empty()
    } else {
        pooled_access(ds.drop_last()) + ds.last().per_access@
    }
}

/// Every per-anchor list of `ds`, concatenated in order.
pub open spec fn pooled_anchor(ds: Seq<TerminalDemand>) -> Seq<usize>
    decreases ds.len(),
{
    if ds.len() == 0 {
        Seq::empty()
    } else {
        pooled_anchor(ds.drop_last()) + ds.last().per_anchor@
    }
}

/// Every instant's per-access samples together, as a bag of values.
pub open spec fn access_samples(ds: Seq<TerminalDemand>) -> Multiset<usize>
    decreases ds.len(),
{
    if ds.len() == 0 {
        Multiset::empty()
    } else {
        access_samples(ds.drop_last()).add(ds.last().per_access@.to_multiset())
    }
}

/// Every instant's per-anchor samples together, as a bag of values.
pub open spec fn anchor_samples(ds: Seq<TerminalDemand>) -> Multiset<usize>
    decreases ds.len(),
{
    if ds.len() == 0 {
        Multiset::empty()
    } else {
        anchor_samples(ds.drop_last()).add(ds.last().per_anchor@.to_multiset())
    }
}

/// The pooled link count is the busiest instant's: no instant needs more, and
/// some instant needs exactly that many (none at all for no instants).
pub proof fn lemma_peak_links_is_busiest(ds: Seq<TerminalDemand>)
    ensures
        forall|i: int| 0 <= i < ds.len() ==> #[trigger] ds[i].links <= peak_links(ds),
        ds.len() == 0 ==> peak_links(ds) == 0,
        ds.len() > 0 ==> exists|i: int| 0 <= i < ds.len() && #[trigger] ds[i].links == peak_links(ds),
    decreases ds.len(),
{
    if ds.len() > 0 {
        let rest = ds.drop_last();
        lemma_peak_links_is_busiest(rest);
        assert forall|i: int| 0 <= i < ds.len() implies #[trigger] ds[i].links <= peak_links(ds) by {
            if i < ds.len() - 1 {
                assert(rest[i] == ds[i]);
            }
        }
        if ds.last().links as nat == peak_links(ds) {
            assert(ds[ds.len() - 1].links == peak_links(ds));
        } else {
            let i = choose|i: int| 0 <= i < rest.len() && #[trigger] rest[i].links == peak_links(rest);
            assert(ds[i] == rest[i]);
        }
    }
}

/// Pooling over the day keeps every instant's samples, each side to itself,
/// and lists them ascending.
pub proof fn lemma_pooling_keeps_every_sample(ds: Seq<TerminalDemand>)
    ensures
        sorted_asc(pooled_access(ds)).to_multiset() == access_samples(ds),
        sorted_asc(pooled_anchor(ds)).to_multiset() == anchor_samples(ds),
        sorted_by(sorted_asc(pooled_access(ds)), usize_le()),
        sorted_by(sorted_asc(pooled_anchor(ds)), usize_le()),
{
    lemma_usize_le_total();
    pooled_access(ds).lemma_sort_by_ensures(usize_le());
    pooled_anchor(ds).lemma_sort_by_ensures(usize_le());
    lemma_pooled_bags(ds);
}

proof fn lemma_pooled_bags(ds: Seq<TerminalDemand>)
    ensures
        pooled_access(ds).to_multiset() == access_samples(ds),
        pooled_anchor(ds).to_multiset() == anchor_samples(ds),
    decreases ds.len(),
{
    broadcast use vstd::seq_lib::group_to_multiset_ensures;
    if ds.len() == 0 {
        assert(pooled_access(ds) =~= Seq::<usize>::empty());
        assert(pooled_anchor(ds) =~= Seq::<usize>::empty());
    } else {
        lemma_pooled_bags(ds.drop_last());
        vstd::seq_lib::lemma_multiset_commutative(pooled_access(ds.drop_last()), ds.last().per_access@);
        vstd::seq_lib::lemma_multiset_commutative(pooled_anchor(ds.drop_last()), ds.last().per_anchor@);
    }
}

/// The busiest instant's link count, 0 for no instants.
pub open spec fn peak_links(ds: Seq<TerminalDemand>) -> nat
    decreases ds.len(),
{
    if ds.len() == 0 {
        0
    } else {
        let rest = peak_links(ds.drop_last());
        if ds.last().links > rest {
            ds.last().links as nat
        } else {
            rest
        }
    }
}

fn append_all(out: &mut Vec<usize>, v: &Vec<usize>)
    ensures
        final(out)@ == old(out)@ + v@,
{
    let ghost start = out@;
    let mut i: usize = 0;
    while i < v.len()
        invariant
            i <= v@.len(),
            out@ == start + v@.take(i as int),
        decreases v@.len() - i,
    {
        out.push(v[i]);
        proof {
            assert(start + v@.take(i as int + 1) =~= (start + v@.take(i as int)).push(v@[i as int]));
        }
        i = i + 1;
    }
    assert(v@.take(i as int) =~= v@);
}

impl TerminalDemand {
    /// Pool per-instant demands into one distribution over satellite-instants.
    ///
    /// A single instant holds only as many samples as there are satellites,
    /// so sizing pools the day. `links` becomes the busiest instant's count,
    /// since links are held simultaneously and do not accumulate.
    pub fn over_time(instants: Vec<TerminalDemand>) -> (d: TerminalDemand)
        ensures
            d.per_access@ == sorted_asc(pooled_access(instants@)),
            d.per_anchor@ == sorted_asc(pooled_anchor(instants@)),
            d.links == peak_links(instants@),
            // Every instant's samples, each side to itself, ascending.
            d.per_access@.to_multiset() == access_samples(instants@),
            d.per_anchor@.to_multiset() == anchor_samples(instants@),
            sorted_by(d.per_access@, usize_le()),
            sorted_by(d.per_anchor@, usize_le()),
            forall|i: int| 0 <= i < instants@.len() ==> #[trigger] instants@[i].links <= d.links,
            instants@.len() > 0 ==> exists|i: int| 0 <= i < instants@.len() && #[trigger] instants@[i].links == d.links,
    {
        let mut per_access: Vec<usize> = Vec::new();
        let mut per_anchor: Vec<usize> = Vec::new();
        let mut links: usize = 0;
        let mut i: usize = 0;
        while i < instants.len()
            invariant
                i <= instants@.len(),
                per_access@ == pooled_access(instants@.take(i as int)),
                per_anchor@ == pooled_anchor(instants@.take(i as int)),
                links == peak_links(instants@.take(i as int)),
            decreases instants@.len() - i,
        {
            let d = &instants[i];
            append_all(&mut per_access, &d.per_access);
            append_all(&mut per_anchor, &d.per_anchor);
            if d.links > links {
                links = d.links;
            }
            proof {
                assert(instants@.take(i as int + 1).drop_last() =~= instants@.take(i as int));
            }
            i = i + 1;
        }
        assert(instants@.take(i as int) =~= instants@);
        proof {
            lemma_pooling_keeps_every_sample(instants@);
            lemma_peak_links_is_busiest(instants@);
        }
        TerminalDemand { per_access: sort_usize(per_access), per_anchor: sort_usize(per_anchor), links }
    }
}

} // verus!
