use hero_bot::protocol::{Hero, Wall};
use hero_bot::sight::{bresenham_line, enemy_can_shoot_hero, has_line_of_sight};

fn hero(x: i32, y: i32, cooldown: i32) -> Hero {
    Hero { id: 1, owner_id: 1, type_: "mage".to_string(), x, y, hp: 10, cooldown }
}

#[test]
fn exact_lines() {
    assert_eq!(bresenham_line(0, 0, 5, 2), vec![(0, 0), (1, 0), (2, 1), (3, 1), (4, 2), (5, 2)]);
    assert_eq!(bresenham_line(0, 0, -2, 4), vec![(0, 0), (-1, 1), (-1, 2), (-2, 3), (-2, 4)]);
    assert_eq!(bresenham_line(3, 3, 3, 3), vec![(3, 3)]);
    assert_eq!(bresenham_line(2, 5, 2, 2), vec![(2, 5), (2, 4), (2, 3), (2, 2)]);
    assert_eq!(bresenham_line(1, 1, 4, 4), vec![(1, 1), (2, 2), (3, 3), (4, 4)]);
}

#[test]
fn halves_round_away_from_the_start() {
    assert_eq!(bresenham_line(0, 0, 2, 1), vec![(0, 0), (1, 1), (2, 1)]);
    assert_eq!(bresenham_line(2, 1, 0, 0), vec![(2, 1), (1, 0), (0, 0)]);
}

#[test]
fn lines_are_connected_and_near_the_ideal() {
    for (x1, y1) in [(17, 5), (-9, 31), (8, -8), (0, -12), (23, 22)] {
        let line = bresenham_line(2, -3, x1, y1);
        let total = (x1 - 2i32).abs().max((y1 + 3i32).abs());
        assert_eq!(line.len() as i32, total + 1);
        assert_eq!(line[0], (2, -3));
        assert_eq!(line[line.len() - 1], (x1, y1));
        for n in 0..line.len() {
            let (px, py) = line[n];
            assert!(2 * ((px - 2) * total - n as i32 * (x1 - 2)).abs() <= total);
            assert!(2 * ((py + 3) * total - n as i32 * (y1 + 3)).abs() <= total);
            if n > 0 {
                let (qx, qy) = line[n - 1];
                assert_eq!((px - qx).abs().max((py - qy).abs()), 1);
            }
        }
    }
}

#[test]
fn walls_block_their_block() {
    let walls = vec![Wall { x: 10, y: 10 }];
    assert!(!has_line_of_sight(1, 10, 20, 10, &walls));
    assert!(!has_line_of_sight(1, 11, 20, 11, &walls));
    assert!(has_line_of_sight(1, 12, 20, 12, &walls));
    assert!(has_line_of_sight(1, 10, 8, 10, &walls));
    assert!(!has_line_of_sight(1, 10, 9, 10, &walls));
    assert!(has_line_of_sight(1, 10, 20, 10, &[]));
}

#[test]
fn sight_can_be_one_way() {
    let walls = vec![Wall { x: 14, y: 3 }];
    assert!(!has_line_of_sight(16, 1, 4, 3, &walls));
    assert!(has_line_of_sight(4, 3, 16, 1, &walls));
}

#[test]
fn enemies_shoot_when_ready_and_in_sight() {
    let walls = vec![Wall { x: 14, y: 3 }];
    assert!(enemy_can_shoot_hero(&hero(4, 3, 0), &hero(16, 1, 5), &walls));
    assert!(!enemy_can_shoot_hero(&hero(4, 3, 1), &hero(16, 1, 5), &walls));
    assert!(!enemy_can_shoot_hero(&hero(16, 1, 0), &hero(4, 3, 5), &walls));
}
