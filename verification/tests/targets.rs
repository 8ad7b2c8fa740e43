use hero_bot::protocol::{Hero, Wall};
use hero_bot::targets::{all_heroes_near, find_bottom_target, find_rally_point, find_top_target};

fn hero(x: i32, y: i32) -> Hero {
    Hero { id: 1, owner_id: 1, type_: "mage".to_string(), x, y, hp: 10, cooldown: 0 }
}

#[test]
fn bottom_target_is_the_lowest_open_point() {
    assert_eq!(find_bottom_target(10, 40, &[], 40), (10, 37));
    let walls = vec![Wall { x: 10, y: 37 }, Wall { x: 10, y: 34 }];
    assert_eq!(find_bottom_target(10, 40, &walls, 40), (10, 31));
}

#[test]
fn top_target_is_the_highest_open_point() {
    assert_eq!(find_top_target(10, 40, &[], 40), (10, 1));
    let walls = vec![Wall { x: 10, y: 1 }, Wall { x: 10, y: 4 }];
    assert_eq!(find_top_target(10, 40, &walls, 40), (10, 7));
}

#[test]
fn closed_columns_fall_back_to_the_middle() {
    assert_eq!(find_bottom_target(100, 40, &[], 40), (100, 19));
    assert_eq!(find_top_target(100, 40, &[], 40), (100, 19));
    assert_eq!(find_bottom_target(10, 2, &[], 40), (10, 1));
    assert_eq!(find_bottom_target(10, -7, &[], 40), (10, -2));
    assert_eq!(find_top_target(10, i32::MIN, &[], 40).0, 10);
}

#[test]
fn rally_point_is_the_first_open_one_around() {
    assert_eq!(find_rally_point(40, 40, &[], 10, 19), (10, 19));
    assert_eq!(find_rally_point(40, 40, &[], 11, 20), (10, 19));
    let one = vec![Wall { x: 10, y: 19 }];
    assert_eq!(find_rally_point(40, 40, &one, 10, 19), (13, 19));
    let row: Vec<Wall> = (0..14).map(|i| Wall { x: 1 + 3 * i, y: 19 }).collect();
    assert_eq!(find_rally_point(40, 40, &row, 10, 19), (10, 22));
    assert_eq!(find_rally_point(5, 5, &[], 10, 19), (10, 19));
}

#[test]
fn gathered_heroes() {
    let a = hero(10, 10);
    let b = hero(19, 1);
    let c = hero(20, 10);
    assert!(all_heroes_near(&[&a, &b], 10, 10, 9));
    assert!(!all_heroes_near(&[&a, &c], 10, 10, 9));
    assert!(all_heroes_near(&[&a, &c], 10, 10, 10));
    assert!(all_heroes_near(&[], 10, 10, 9));
    assert!(!all_heroes_near(&[&a], 10, 10, -1));
}
