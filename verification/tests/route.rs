use hero_bot::protocol::Wall;
use hero_bot::route::bfs_next_step;

fn walls(points: &[(i32, i32)]) -> Vec<Wall> {
    points.iter().map(|p| Wall { x: p.0, y: p.1 }).collect()
}

#[test]
fn already_there() {
    assert_eq!(bfs_next_step(4, 4, 5, 3, &[], 30, 30), (4, 4));
}

#[test]
fn straight_and_diagonal() {
    assert_eq!(bfs_next_step(1, 1, 1, 7, &[], 20, 20), (1, 4));
    assert_eq!(bfs_next_step(7, 7, 1, 7, &[], 20, 20), (4, 7));
    assert_eq!(bfs_next_step(1, 1, 10, 10, &[], 20, 20), (4, 4));
    assert_eq!(bfs_next_step(10, 10, 1, 1, &[], 20, 20), (7, 7));
}

#[test]
fn ties_go_to_the_earlier_heading() {
    assert_eq!(bfs_next_step(1, 1, 7, 4, &[], 20, 20), (4, 1));
    assert_eq!(bfs_next_step(1, 1, 4, 7, &[], 20, 20), (1, 4));
}

#[test]
fn round_a_wall() {
    let w = walls(&[(10, 1), (10, 4), (10, 7)]);
    let mut p = (4, 4);
    let mut path = vec![p];
    while p != (16, 4) {
        p = bfs_next_step(p.0, p.1, 16, 4, &w, 30, 30);
        path.push(p);
        assert!(path.len() < 20);
    }
    assert_eq!(path, vec![(4, 4), (7, 7), (10, 10), (13, 7), (16, 4)]);
}

#[test]
fn no_way_through() {
    let w: Vec<Wall> = (0..10).map(|i| Wall { x: 10, y: 1 + 3 * i }).collect();
    assert_eq!(bfs_next_step(4, 4, 16, 4, &w, 30, 30), (4, 4));
}

#[test]
fn target_inside_a_wall_or_off_the_map() {
    let w = walls(&[(10, 10)]);
    assert_eq!(bfs_next_step(4, 4, 10, 10, &w, 30, 30), (4, 4));
    assert_eq!(bfs_next_step(4, 4, 100, 100, &w, 30, 30), (4, 4));
    assert_eq!(bfs_next_step(4, 4, -20, 4, &w, 30, 30), (4, 4));
}

#[test]
fn start_inside_a_wall_gets_out() {
    let w = walls(&[(14, 3)]);
    assert_eq!(bfs_next_step(16, 1, 4, 3, &w, 40, 40), (19, 4));
}

#[test]
fn start_off_the_grid_never_meets_the_target() {
    assert_eq!(bfs_next_step(5, 5, 13, 13, &[], 30, 30), (5, 5));
}

#[test]
fn extreme_coordinates() {
    assert_eq!(bfs_next_step(i32::MAX, i32::MIN, i32::MIN, 4, &[], 30, 30), (i32::MAX, i32::MIN));
    assert_eq!(bfs_next_step(4, 4, 10, 4, &[], i32::MIN, i32::MIN), (4, 4));
}
