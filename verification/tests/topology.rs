use std::collections::BTreeMap;

use terminus::topology::{
    direct_demand, gateway_demand, pair_load, relay_demand, uniform_relay_demand, Session,
    TerminalDemand,
};

fn sessions(pairs: &[(usize, usize)]) -> Vec<Session> {
    pairs
        .iter()
        .map(|&(access, anchor)| Session { access, anchor })
        .collect()
}

/// A terminal is a pipe: sessions sharing both ends share one link.
#[test]
fn sessions_sharing_both_ends_share_one_link() {
    let d = direct_demand(&sessions(&[(0, 5), (0, 5), (0, 5)]));
    assert_eq!(d.links, 1);
    assert_eq!(d.max_access(), 1);
    assert_eq!(d.max_anchor(), 1);
}

/// One access satellite carrying sessions anchored in four places needs four
/// terminals.
#[test]
fn scattered_anchors_cost_the_access_satellite_a_terminal_each() {
    let d = direct_demand(&sessions(&[(0, 1), (0, 2), (0, 3), (0, 4)]));
    assert_eq!(d.max_access(), 4);
    assert_eq!(d.max_anchor(), 1);
}

/// A gateway makes the wheel's terminal count independent of how scattered
/// the anchors are.
#[test]
fn a_gateway_holds_the_wheel_to_one_terminal_however_scattered_the_anchors() {
    let scattered = sessions(&[(0, 1), (0, 2), (0, 3), (0, 4), (0, 5), (0, 6)]);
    let gateway: BTreeMap<usize, usize> = [(0usize, 9usize)].into_iter().collect();

    let direct = direct_demand(&scattered);
    let gw = gateway_demand(&scattered, &gateway);

    assert_eq!(direct.max_access(), 6);
    assert_eq!(gw.max_access(), 1);
    assert!(gw.max_access() < direct.max_access());
}

/// `links` is the busiest instant, not the sum.
#[test]
fn pooling_instants_keeps_the_distribution_and_peaks_the_links() {
    let a = direct_demand(&sessions(&[(0, 1), (0, 2), (1, 1)]));
    let b = direct_demand(&sessions(&[(0, 1), (1, 1), (1, 2), (1, 3)]));
    assert_eq!(a.links, 3);
    assert_eq!(b.links, 4);

    let pooled = TerminalDemand::over_time(vec![a, b]);
    assert_eq!(pooled.per_access, vec![1, 1, 2, 3]);
    assert_eq!(pooled.max_access(), 3);
    assert_eq!(pooled.links, 4, "links peak, they do not add up");
}

/// Twelve satellites each seeing a different anchor need twelve terminals
/// between them, not twelve each.
#[test]
fn pooling_a_ring_pays_for_its_anchors_once_not_once_per_satellite() {
    let s: Vec<Session> = (0..12).map(|i| Session { access: i, anchor: i }).collect();
    let direct = direct_demand(&s);
    assert_eq!(direct.max_access(), 1, "each satellite sees one anchor...");
    assert_eq!(direct.links, 12, "...but the ring still buys twelve links");

    let relay = relay_demand(&s, |_| 0, 3);
    assert_eq!(relay.links, 12);
    assert_eq!(relay.max_access(), 4);
}

/// The saving is in the satellites that carry no feeder terminal at all.
#[test]
fn only_the_hosts_carry_feeder_terminals() {
    let s: Vec<Session> = (0..12).map(|i| Session { access: i, anchor: i % 6 }).collect();
    let relay = relay_demand(&s, |_| 0, 3);
    assert_eq!(relay.per_access.len(), 3, "nine satellites carry none");
    assert_eq!(relay.max_access(), 2, "six anchors over three hosts");
}

/// One drawing means every satellite carries the worst window.
#[test]
fn one_drawing_means_every_satellite_carries_the_worst_window() {
    let s: Vec<Session> = (0..5)
        .flat_map(|i| (0..5).map(move |a| Session { access: i, anchor: a }))
        .collect();

    let d = uniform_relay_demand(&s, |a| (0, a), |_, _| true, 12, 2);
    assert_eq!(d.max_access(), 1);
    assert_eq!(d.per_access.len(), 12, "every satellite is built the same");
    assert!(
        d.per_access.iter().all(|&n| n == d.max_access()),
        "one drawing: no satellite is cheaper than another"
    );
}

/// A longer window pools more terminals, so each satellite carries fewer.
#[test]
fn more_reach_means_fewer_terminals_each() {
    let s: Vec<Session> = (0..12)
        .flat_map(|i| (0..6).map(move |a| Session { access: i, anchor: a }))
        .collect();
    let one_hop = uniform_relay_demand(&s, |a| (0, a), |_, _| true, 12, 1);
    let two_hop = uniform_relay_demand(&s, |a| (0, a), |_, _| true, 12, 2);
    assert!(
        two_hop.max_access() <= one_hop.max_access(),
        "two hops {} should not cost more than one {}",
        two_hop.max_access(),
        one_hop.max_access()
    );
}

/// An isolated satellite cannot pool.
#[test]
fn an_isolated_satellite_carries_its_own_anchors() {
    let s: Vec<Session> = (0..4).map(|a| Session { access: 6, anchor: a }).collect();

    let pooled = uniform_relay_demand(&s, |a| (0, a), |_, p| p == 6, 12, 2);
    assert_eq!(pooled.max_access(), 4, "alone, it carries all four");

    let with_neighbours = uniform_relay_demand(&s, |a| (0, a), |_, _| true, 12, 2);
    assert_eq!(with_neighbours.max_access(), 1, "with four to lean on, one each");
}

/// A ring exits through one terminal per window, so an anchor sees a handful
/// of endpoints rather than every access satellite whose sessions it holds.
#[test]
fn an_anchor_sees_windows_not_satellites() {
    let s: Vec<Session> = (0..12).map(|i| Session { access: i, anchor: 0 }).collect();

    let direct = direct_demand(&s);
    assert_eq!(direct.max_anchor(), 12, "direct: twelve endpoints");

    let pooled = uniform_relay_demand(&s, |a| (0, a), |_, _| true, 12, 2);
    assert_eq!(pooled.max_anchor(), 3, "pooled: three endpoints");
}

/// A ring that wants an anchor from one place needs exactly one link to it.
#[test]
fn neighbouring_positions_share_one_anchor_link() {
    let s: Vec<Session> = (0..3).map(|i| Session { access: i, anchor: 7 }).collect();
    let pooled = uniform_relay_demand(&s, |a| (0, a), |_, _| true, 12, 2);
    assert_eq!(pooled.max_anchor(), 1);
}

/// The blast radius of one anchor telescope: every session on that ring
/// anchored there, all at once.
#[test]
fn one_anchor_telescope_carries_a_whole_rings_sessions_to_it() {
    let mut s: Vec<Session> = (0..9).map(|i| Session { access: i, anchor: 4 }).collect();
    s.push(Session { access: 13, anchor: 4 });
    let load = pair_load(&s, |a| a / 12);
    assert_eq!(load, vec![1, 9], "nine on ring 0's link, one on ring 1's");
}

#[test]
fn the_direct_distribution_is_ascending_per_access_satellite() {
    let d = direct_demand(&sessions(&[
        (0, 1),
        (1, 1),
        (1, 2),
        (2, 1),
        (2, 2),
        (2, 3),
        (3, 1),
        (3, 2),
        (3, 3),
        (3, 4),
    ]));
    assert_eq!(d.per_access, vec![1, 2, 3, 4]);
    assert_eq!(d.per_anchor, vec![1, 2, 3, 4]);
    assert_eq!(d.links, 10);
    assert_eq!(d.max_access(), 4);
}

#[test]
fn nothing_carried_means_nothing_to_build() {
    let d = direct_demand(&[]);
    assert_eq!(d.max_access(), 0);
    assert_eq!(d.max_anchor(), 0);
    assert_eq!(d.links, 0);
    let pooled = TerminalDemand::over_time(Vec::new());
    assert_eq!(pooled.links, 0);
    assert!(pooled.per_access.is_empty());
}

#[test]
fn a_satellite_the_gateway_map_does_not_name_is_skipped() {
    let gateway: BTreeMap<usize, usize> = [(0usize, 9usize), (1, 9), (2, 8)].into_iter().collect();
    let d = gateway_demand(&sessions(&[(0, 1), (1, 2), (2, 3), (5, 4), (0, 6)]), &gateway);
    assert_eq!(d.links, 3);
    assert_eq!(d.per_access, vec![1, 1, 1]);
    assert_eq!(d.per_anchor, vec![1, 2], "anchor 8 feeds one, anchor 9 feeds two");
}

#[test]
fn a_ring_with_an_uneven_share_rounds_each_host_up() {
    // Seven anchors over two hosts: four each.
    let s: Vec<Session> = (0..7).map(|i| Session { access: i, anchor: i }).collect();
    let d = relay_demand(&s, |_| 0, 2);
    assert_eq!(d.per_access, vec![4, 4]);
    assert_eq!(d.links, 7);
    assert_eq!(d.per_anchor, vec![1; 7]);
}

#[test]
fn a_window_without_relays_carries_its_anchors_alone() {
    // Nothing is switched on: every window carries its anchors by itself.
    let s: Vec<Session> = (0..3).map(|a| Session { access: 0, anchor: a }).collect();
    let d = uniform_relay_demand(&s, |a| (0, a), |_, _| false, 12, 1);
    assert_eq!(d.max_access(), 3);
    assert_eq!(d.links, 3);
    assert_eq!(d.per_anchor, vec![1, 1, 1]);
}

#[test]
fn a_window_wider_than_the_ring_is_the_whole_ring() {
    // Reach 5 on a ring of 4: the window is the ring, 8 anchors over 4 relays.
    let s: Vec<Session> = (0..8).map(|a| Session { access: a % 4, anchor: a }).collect();
    let d = uniform_relay_demand(&s, |a| (0, a), |_, _| true, 4, 5);
    assert_eq!(d.per_access, vec![2, 2, 2, 2]);
    assert_eq!(d.per_anchor, vec![1; 8]);
}

#[test]
fn the_cover_wraps_round_the_ring() {
    // Positions 11, 0 and 1 of a ring of 12 sit in one window of three.
    let s: Vec<Session> = [11usize, 0, 1].iter().map(|&p| Session { access: p, anchor: 2 }).collect();
    let d = uniform_relay_demand(&s, |a| (0, a), |_, _| true, 12, 1);
    assert_eq!(d.per_anchor, vec![1]);
}

#[test]
fn a_position_off_the_ring_is_in_no_window() {
    // Position 20 on a ring of 12 is never in a window: it wants no link, but
    // its anchor still needs a terminal for it.
    let s = vec![Session { access: 20, anchor: 3 }];
    let d = uniform_relay_demand(&s, |a| (0, a), |_, _| true, 12, 1);
    assert_eq!(d.links, 0);
    assert_eq!(d.max_access(), 0);
    assert_eq!(d.per_access.len(), 12);
    assert_eq!(d.per_anchor, vec![1]);
}

#[test]
fn a_longer_window_can_join_two_crowds() {
    // Three anchors at position 0 and three others at position 4: a window of
    // three sees one crowd at a time, a window of five sees both.
    let mut s: Vec<Session> = (0..3).map(|a| Session { access: 0, anchor: a }).collect();
    s.extend((3..6).map(|a| Session { access: 4, anchor: a }));
    let one_hop = uniform_relay_demand(&s, |a| (0, a), |_, _| true, 12, 1);
    let two_hop = uniform_relay_demand(&s, |a| (0, a), |_, _| true, 12, 2);
    assert_eq!(one_hop.max_access(), 1);
    assert_eq!(two_hop.max_access(), 2);
}

#[test]
fn repeating_a_session_changes_nothing() {
    let base = sessions(&[(0, 1), (1, 2), (2, 1)]);
    let mut repeated = base.clone();
    repeated.push(Session { access: 1, anchor: 2 });
    assert_eq!(direct_demand(&base), direct_demand(&repeated));
}
