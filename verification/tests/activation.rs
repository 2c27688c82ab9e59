use terminus::activation::{
    cover_lower_bound, duty_first_activation, exact_activation, exact_min_cover, fleet_size,
    satellite_index, select_active, smooth_schedule, switch_count, WheelShape,
};

fn covers(cov: &[Vec<usize>], active: &[bool], redundancy: usize) -> bool {
    cov.iter().all(|sats| {
        let lit = sats.iter().filter(|&&s| active[s]).count();
        lit >= redundancy.min(sats.len())
    })
}

/// Five points on a line of six satellites, each served by its two
/// neighbours: {0,1}, {1,2}, {2,3}, {3,4}, {4,5}.
fn chain() -> Vec<Vec<usize>> {
    (0..5).map(|p| vec![p, p + 1]).collect()
}

#[test]
fn a_plan_covers_every_point_and_counts_what_it_lights() {
    let cov = chain();
    let plan = select_active(&cov, 6, 1, None);
    assert!(covers(&cov, &plan.active, 1));
    assert_eq!(plan.active.len(), 6);
    assert_eq!(plan.lit, plan.active.iter().filter(|&&a| a).count());
    assert!(plan.unservable.is_empty());
    assert!(plan.lit < 6, "lighting the whole fleet is never necessary here");
}

#[test]
fn every_lit_satellite_is_needed() {
    let cov = chain();
    let plan = select_active(&cov, 6, 1, None);
    for s in 0..6 {
        if plan.active[s] {
            let mut without = plan.active.clone();
            without[s] = false;
            assert!(!covers(&cov, &without, 1), "satellite {s} was spare");
        }
    }
}

#[test]
fn asking_for_two_servers_reports_where_the_fleet_is_short() {
    // Point 1 has a single server: dual coverage is geometrically unavailable.
    let cov = vec![vec![0, 1], vec![2], vec![1, 2, 3]];
    let plan = select_active(&cov, 4, 2, None);
    assert_eq!(plan.unservable, vec![1]);
    assert!(covers(&cov, &plan.active, 2), "covered as far as possible");
}

#[test]
fn a_point_nobody_sees_is_unservable() {
    let cov = vec![vec![0], vec![]];
    let plan = select_active(&cov, 2, 1, None);
    assert_eq!(plan.unservable, vec![1]);
    assert!(plan.active[0]);
    assert_eq!(exact_min_cover(&cov, 2, 1000), None);
    assert!(exact_activation(&cov, 2, None, 1000).is_none());
}

#[test]
fn the_lower_bound_never_exceeds_what_greedy_achieves() {
    let cov = chain();
    let lit = select_active(&cov, 6, 1, None).lit;
    let bound = cover_lower_bound(&cov, 1);
    assert!(bound <= lit, "bound {bound} above greedy {lit}");
    // Points 0, 2 and 4 share no satellite: three are needed.
    assert_eq!(bound, 3);
}

#[test]
fn the_exact_search_finds_the_minimum_and_covers_everything() {
    let cov = chain();
    let greedy = select_active(&cov, 6, 1, None).lit;
    let plan = exact_activation(&cov, 6, None, 1_000_000).expect("small enough to finish");
    assert_eq!(plan.lit, 3);
    assert!(plan.lit <= greedy);
    assert!(covers(&cov, &plan.active, 1));
    assert_eq!(plan.active.iter().filter(|&&a| a).count(), plan.lit);
    assert_eq!(exact_min_cover(&cov, 6, 1_000_000), Some(3));
}

#[test]
fn nothing_to_serve_lights_nothing() {
    let cov: Vec<Vec<usize>> = Vec::new();
    let plan = select_active(&cov, 4, 1, None);
    assert_eq!(plan.lit, 0);
    assert_eq!(exact_min_cover(&cov, 4, 10), Some(0));
    assert_eq!(cover_lower_bound(&cov, 3), 0);
}

#[test]
fn the_previous_plan_breaks_ties() {
    // One point, two equally good servers: the one already lit stays lit.
    let cov = vec![vec![0, 1]];
    let prev = [false, true];
    let plan = select_active(&cov, 2, 1, Some(&prev));
    assert_eq!(plan.active, vec![false, true]);
}

#[test]
fn duty_first_lights_the_duty_ring_then_patches() {
    let shape = WheelShape { planes: 3, sats_per_plane: 2 };
    assert_eq!(fleet_size(&shape), 6);
    assert_eq!(satellite_index(&shape, 2, 1), 5);
    // Ring 1 is satellites 2 and 3; point 2 is served only from ring 2.
    let cov = vec![vec![2], vec![0, 3], vec![4]];
    let loose = duty_first_activation(&cov, &shape, 1, None, false);
    assert!(loose.active[2] && loose.active[3]);
    assert!(loose.active[4]);
    assert!(covers(&cov, &loose.active, 1));
    let tight = duty_first_activation(&cov, &shape, 1, None, true);
    assert!(covers(&cov, &tight.active, 1));
    assert!(tight.lit <= loose.lit, "pruning lit more");
}

#[test]
fn smoothing_closes_short_gaps_and_warms_up() {
    // One satellite: on, off, on, off, off, off, on.
    let col = [true, false, true, false, false, false, true];
    let plans: Vec<Vec<bool>> = col.iter().map(|&b| vec![b]).collect();
    let smoothed = smooth_schedule(&plans, 0, 2);
    let got: Vec<bool> = smoothed.iter().map(|r| r[0]).collect();
    // The one-step gap closes; the three-step gap stays open.
    assert_eq!(got, vec![true, true, true, false, false, false, true]);
    assert_eq!(switch_count(&plans), 4);
    assert_eq!(switch_count(&smoothed), 2);

    let warm = smooth_schedule(&plans, 1, 0);
    let got: Vec<bool> = warm.iter().map(|r| r[0]).collect();
    assert_eq!(got, vec![true, true, true, false, false, true, true]);
}

#[test]
fn smoothing_only_adds_lit_time_and_leaves_no_blink() {
    let plans = vec![
        vec![false, true],
        vec![true, false],
        vec![false, true],
        vec![false, false],
        vec![true, true],
    ];
    let smoothed = smooth_schedule(&plans, 1, 1);
    for i in 0..plans.len() {
        for s in 0..2 {
            assert!(!plans[i][s] || smoothed[i][s]);
        }
    }
    for s in 0..2 {
        for i in 1..smoothed.len() - 1 {
            assert!(!(smoothed[i][s] && !smoothed[i - 1][s] && !smoothed[i + 1][s]));
        }
    }
    assert!(switch_count(&smoothed) <= switch_count(&plans));
}

#[test]
fn an_empty_schedule_costs_nothing() {
    let plans: Vec<Vec<bool>> = Vec::new();
    assert!(smooth_schedule(&plans, 3, 3).is_empty());
    assert_eq!(switch_count(&plans), 0);
    assert_eq!(switch_count(&[vec![true, false]]), 0);
}

#[test]
fn a_search_with_no_budget_finishes_nothing() {
    assert_eq!(exact_min_cover(&chain(), 6, 0), None);
    assert!(exact_activation(&chain(), 6, None, 0).is_none());
}

#[test]
fn a_generous_budget_finishes() {
    assert_eq!(exact_min_cover(&chain(), 6, 63), Some(3));
    // A wider instance: three points, three servers each, pairwise disjoint.
    let cov = vec![vec![0, 1, 2], vec![3, 4, 5], vec![6, 7, 8]];
    assert_eq!(exact_min_cover(&cov, 9, 40), Some(3));
}

#[test]
fn the_pruned_duty_plan_lights_a_subset_of_the_unpruned_one() {
    let shape = WheelShape { planes: 2, sats_per_plane: 3 };
    // Duty ring 0 is satellites 0, 1, 2; satellite 1 serves nothing.
    let cov = vec![vec![0, 3], vec![2], vec![4, 5]];
    let loose = duty_first_activation(&cov, &shape, 0, None, false);
    let tight = duty_first_activation(&cov, &shape, 0, None, true);
    for s in 0..6 {
        assert!(!tight.active[s] || loose.active[s]);
    }
    assert!(!tight.active[1], "a duty satellite over empty sky is switched back off");
    assert!(tight.lit < loose.lit);
}

#[test]
fn the_bound_takes_the_most_constrained_points_first() {
    // Point 2 has one server, point 1 two, point 0 three; point 0 shares
    // satellite 2 with point 1 and is left out of the family.
    let cov = vec![vec![0, 1, 2], vec![2, 3], vec![4]];
    assert_eq!(cover_lower_bound(&cov, 1), 2);
    assert_eq!(cover_lower_bound(&cov, 2), 3);
}

#[test]
fn the_search_finishes_exactly_from_its_node_count_on() {
    let cov = chain();
    let mut first: Option<u64> = None;
    for budget in 0..200u64 {
        let r = exact_min_cover(&cov, 6, budget);
        match first {
            None => {
                if r.is_some() {
                    first = Some(budget);
                }
            }
            Some(_) => assert_eq!(r, Some(3), "a larger budget keeps the answer"),
        }
    }
    let needed = first.expect("the chain closes well within 200 nodes");
    assert!(needed >= 1);
    assert_eq!(exact_min_cover(&cov, 6, needed - 1), None);
    let at = exact_activation(&cov, 6, None, needed).expect("finishes at its node count");
    let above = exact_activation(&cov, 6, None, needed + 1000).expect("and beyond it");
    assert_eq!(at.active, above.active);
    assert_eq!(at.lit, above.lit);
}

#[test]
fn the_exact_plan_never_lights_more_than_greedy_even_with_repeats() {
    // Point 0 lists satellite 0 twice.
    let cov = vec![vec![0, 0], vec![1, 2], vec![0, 2], vec![3, 1]];
    let greedy = select_active(&cov, 4, 1, None);
    let exact = exact_activation(&cov, 4, None, 10_000).expect("tiny instance");
    assert!(exact.lit <= greedy.lit);
    assert_eq!(exact.lit, 2);
    assert!(covers(&cov, &exact.active, 1));
    assert_eq!(exact_min_cover(&cov, 4, 10_000), Some(2));
}

#[test]
fn among_equal_covers_the_exact_plan_keeps_the_previous_one() {
    let cov = vec![vec![0, 1], vec![1, 2], vec![2, 3], vec![3, 0]];
    let keep_odd = [false, true, false, true];
    let keep_even = [true, false, true, false];
    let odd = exact_activation(&cov, 4, Some(&keep_odd), 10_000).expect("tiny instance");
    let even = exact_activation(&cov, 4, Some(&keep_even), 10_000).expect("tiny instance");
    assert_eq!(odd.active, keep_odd.to_vec());
    assert_eq!(even.active, keep_even.to_vec());
    assert_eq!(odd.lit, 2);
}

#[test]
fn the_bound_holds_for_points_that_list_a_satellite_twice() {
    // Points 0 and 2 share no server; point 0 names satellite 0 twice.
    let cov = vec![vec![0, 0], vec![0, 1], vec![2]];
    let bound = cover_lower_bound(&cov, 1);
    assert_eq!(bound, 2);
    let exact = exact_min_cover(&cov, 3, 1000).expect("tiny instance");
    assert!(bound <= exact);
}
