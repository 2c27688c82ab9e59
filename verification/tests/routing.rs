use terminus::routing::{migration_path, necklace_hops, MigrationPath, NECKLACE_LINKS};

const RING: usize = 12;

/// One terminal each way means one hop per place.
#[test]
fn a_hop_moves_one_place_because_that_is_where_the_terminal_points() {
    assert_eq!(necklace_hops(0, 0, RING, NECKLACE_LINKS), Some(0));
    assert_eq!(necklace_hops(0, 1, RING, NECKLACE_LINKS), Some(1));
    assert_eq!(necklace_hops(0, 2, RING, NECKLACE_LINKS), Some(2), "no skipping");
    // Ten places clockwise is two places the other way.
    assert_eq!(necklace_hops(0, 10, RING, NECKLACE_LINKS), Some(2));
    // The far side of the ring: six places, six hops.
    assert_eq!(necklace_hops(0, 6, RING, NECKLACE_LINKS), Some(6));
}

#[test]
fn plane_mates_hand_over_directly_and_everyone_else_goes_down() {
    assert_eq!(migration_path(3, 3), MigrationPath::PlaneLink);
    assert_eq!(migration_path(3, 4), MigrationPath::ThroughTheWheel);
}

#[test]
fn a_ring_that_cannot_relay_has_no_route() {
    assert_eq!(necklace_hops(0, 3, RING, 0), None);
    assert_eq!(necklace_hops(0, 3, 0, NECKLACE_LINKS), None);
}

#[test]
fn longer_links_close_more_places_per_hop() {
    // Five places with two places per hop: three hops, rounding up.
    assert_eq!(necklace_hops(0, 5, RING, 2), Some(3));
    assert_eq!(necklace_hops(0, 4, RING, 2), Some(2));
}

#[test]
fn a_route_costs_the_same_both_ways() {
    for a in 0..RING {
        for b in 0..RING {
            assert_eq!(
                necklace_hops(a, b, RING, NECKLACE_LINKS),
                necklace_hops(b, a, RING, NECKLACE_LINKS)
            );
            assert!(necklace_hops(a, b, RING, NECKLACE_LINKS).unwrap() <= RING / 2);
        }
    }
}

#[test]
fn positions_past_the_ring_wrap_round() {
    // Position 14 on a ring of 12 is position 2.
    assert_eq!(necklace_hops(0, 14, RING, NECKLACE_LINKS), Some(2));
}
