use hero_bot::grid::{dist, in_bounds, overlaps_wall, snap_to_grid};
use hero_bot::protocol::Wall;

#[test]
fn bounds_leave_one_unit_at_each_edge() {
    assert!(in_bounds(1, 1, 10, 12));
    assert!(in_bounds(8, 10, 10, 12));
    assert!(!in_bounds(0, 5, 10, 12));
    assert!(!in_bounds(5, 0, 10, 12));
    assert!(!in_bounds(9, 5, 10, 12));
    assert!(!in_bounds(5, 11, 10, 12));
    assert!(!in_bounds(1, 1, 2, 12));
}

#[test]
fn walls_cover_two_units_around_their_centre() {
    let walls = vec![Wall { x: 10, y: 10 }, Wall { x: 100, y: 4 }];
    assert!(overlaps_wall(10, 10, &walls));
    assert!(overlaps_wall(12, 8, &walls));
    assert!(!overlaps_wall(13, 10, &walls));
    assert!(!overlaps_wall(10, 7, &walls));
    assert!(overlaps_wall(98, 6, &walls));
    assert!(!overlaps_wall(12, 4, &walls));
    assert!(!overlaps_wall(10, 10, &[]));
}

#[test]
fn far_walls_do_not_overflow() {
    let walls = vec![Wall { x: i32::MIN, y: i32::MIN }];
    assert!(!overlaps_wall(i32::MAX, i32::MAX, &walls));
}

#[test]
fn snapping_goes_to_block_centres() {
    let expected = [1, 1, 1, 4, 4, 4, 7, 7, 7, 10];
    for (v, e) in expected.iter().enumerate() {
        assert_eq!(snap_to_grid(v as i32, 0), (*e, 1));
        assert_eq!(snap_to_grid(2, v as i32), (1, *e));
    }
}

#[test]
fn snapping_below_zero() {
    let expected = [(-1, -2), (-2, -3), (-3, -2), (-4, -5), (-5, -6), (-6, -5), (-7, -8)];
    for (v, e) in expected {
        assert_eq!(snap_to_grid(v, v), (e, e));
    }
}

#[test]
fn snapping_at_the_ends_of_the_range() {
    assert_eq!(snap_to_grid(i32::MAX, i32::MAX - 1), (i32::MAX, i32::MAX));
    assert_eq!(snap_to_grid(i32::MIN + 1, 0), (i32::MIN, 1));
}

#[test]
fn snapping_twice_changes_nothing_from_zero_up() {
    for v in 0..200 {
        let (s, _) = snap_to_grid(v, 0);
        assert_eq!(snap_to_grid(s, 0).0, s);
        assert_eq!(s % 3, 1);
        assert!((s - v).abs() <= 1);
    }
}

#[test]
fn distance_is_the_larger_difference() {
    assert_eq!(dist(0, 0, 3, -4), 4);
    assert_eq!(dist(3, -4, 0, 0), 4);
    assert_eq!(dist(-5, 2, 6, 2), 11);
    assert_eq!(dist(7, 7, 7, 7), 0);
    assert_eq!(dist(0, 0, i32::MAX, 1), i32::MAX);
    assert!(dist(0, 0, 20, 5) <= dist(0, 0, 9, 9) + dist(9, 9, 20, 5));
}
