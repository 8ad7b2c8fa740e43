use hero_bot::protocol::{Hero, Wall};
use hero_bot::tactics::{choose_tactical_action, kite_positions, TacticalAction};

fn hero(p: (i32, i32), cooldown: i32) -> Hero {
    Hero { id: 1, owner_id: 1, type_: "mage".to_string(), x: p.0, y: p.1, hp: 10, cooldown }
}

fn walls(points: &[(i32, i32)]) -> Vec<Wall> {
    points.iter().map(|p| Wall { x: p.0, y: p.1 }).collect()
}

/// Whether it shoots, the point it aims at, and the comment.
fn flat(action: TacticalAction) -> (bool, i32, i32, &'static str) {
    match action {
        TacticalAction::Shoot { target_x, target_y, comment } => (true, target_x, target_y, comment),
        TacticalAction::Move { dest_x, dest_y, comment } => (false, dest_x, dest_y, comment),
    }
}

#[test]
fn ways_out_in_order() {
    let h = hero((16, 16), 0);
    assert_eq!(
        kite_positions(&h, &hero((10, 16), 0), &[], 40, 40, false),
        vec![(16, 19), (16, 13), (19, 16), (19, 19), (19, 13), (16, 22)]
    );
    assert_eq!(
        kite_positions(&h, &hero((10, 10), 0), &[], 40, 40, true),
        vec![(13, 19), (19, 13), (19, 19), (16, 22), (22, 16), (10, 22)]
    );
    assert_eq!(kite_positions(&hero((1, 1), 0), &hero((4, 4), 0), &[], 40, 40, false), vec![]);
    assert_eq!(kite_positions(&h, &h, &[], 40, 40, false), vec![(16, 16); 6]);
}

#[test]
fn ways_out_that_keep_sight() {
    let w = walls(&[(14, 3)]);
    let (h, e) = (hero((16, 1), 0), hero((4, 3), 0));
    assert_eq!(kite_positions(&h, &e, &w, 40, 40, true), vec![(22, 7)]);
    assert_eq!(kite_positions(&h, &e, &w, 40, 40, false), vec![(19, 4), (22, 1), (22, 7)]);
}

#[test]
fn too_close_retreats_even_when_ready() {
    let a = choose_tactical_action(&hero((16, 16), 0), &hero((13, 16), 0), &[], 40, 40, (1, 1));
    assert_eq!(flat(a), (false, 16, 19, "🏃retreat"));
    let a = choose_tactical_action(&hero((16, 16), 0), &hero((8, 16), 0), &[], 40, 40, (1, 1));
    assert_eq!(flat(a).3, "🏃retreat");
}

#[test]
fn too_close_and_cornered() {
    let a = choose_tactical_action(&hero((1, 1), 0), &hero((4, 4), 0), &[], 40, 40, (1, 1));
    assert_eq!(flat(a), (false, 1, 1, "🛑stuck"));
}

#[test]
fn ready_and_in_sight_shoots() {
    let a = choose_tactical_action(&hero((16, 16), 0), &hero((7, 16), 0), &[], 40, 40, (1, 1));
    assert_eq!(flat(a), (true, 7, 16, "🔫"));
}

#[test]
fn threatened_while_cooling_down_kites() {
    let a = choose_tactical_action(&hero((16, 16), 2), &hero((4, 16), 0), &[], 40, 40, (1, 1));
    assert_eq!(flat(a), (false, 16, 19, "↔️kite"));
}

#[test]
fn kites_out_of_sight_if_it_must() {
    let w = walls(&[(7, 4), (31, 25), (7, 4), (19, 13), (22, 34), (1, 13)]);
    let a = choose_tactical_action(&hero((1, 4), 2), &hero((22, 28), 0), &w, 38, 38, (1, 1));
    assert_eq!(flat(a), (false, 4, 1, "↔️kite-nlos"));
}

#[test]
fn safe_and_far_approaches() {
    let a = choose_tactical_action(&hero((4, 4), 2), &hero((25, 4), 3), &[], 40, 40, (1, 1));
    assert_eq!(flat(a), (false, 7, 4, "→aproach"));
}

#[test]
fn safe_and_near_strafes() {
    let a = choose_tactical_action(&hero((4, 4), 2), &hero((16, 4), 3), &[], 40, 40, (1, 1));
    assert_eq!(flat(a), (false, 4, 1, "↔️strafe"));
    let a = choose_tactical_action(&hero((4, 4), 2), &hero((19, 4), 3), &[], 40, 40, (1, 1));
    assert_eq!(flat(a).3, "↔️strafe");
}

#[test]
fn nowhere_to_strafe_holds() {
    let w = walls(&[(7, 28), (16, 1), (34, 10), (4, 7), (31, 34), (25, 7)]);
    let a = choose_tactical_action(&hero((25, 1), 2), &hero((34, 10), 3), &w, 38, 38, (1, 1));
    assert_eq!(flat(a), (false, 25, 1, "🎯hold"));
}

#[test]
fn ready_without_sight_hunts() {
    let w = walls(&[(14, 3)]);
    let a = choose_tactical_action(&hero((16, 1), 0), &hero((4, 3), 1), &w, 40, 40, (1, 1));
    assert_eq!(flat(a), (false, 19, 4, "🔍hunt"));
}

#[test]
fn ready_without_sight_hunts_though_threatened() {
    let w = walls(&[(14, 3)]);
    let a = choose_tactical_action(&hero((16, 1), 0), &hero((4, 3), 0), &w, 40, 40, (1, 1));
    assert_eq!(flat(a), (false, 19, 4, "🔍hunt"));
    let a = choose_tactical_action(&hero((16, 1), 1), &hero((4, 3), 0), &w, 40, 40, (1, 1));
    assert_eq!(flat(a), (false, 22, 7, "↔️kite"));
}

#[test]
fn below_zero_a_threatened_hero_kites_and_a_safe_one_hunts() {
    let a = choose_tactical_action(&hero((16, 16), -1), &hero((4, 16), 0), &[], 40, 40, (1, 1));
    assert_eq!(flat(a), (false, 16, 19, "↔️kite"));
    let a = choose_tactical_action(&hero((16, 16), -1), &hero((4, 16), 3), &[], 40, 40, (1, 1));
    assert_eq!(flat(a), (false, 13, 16, "🔍hunt"));
}
