use hero_bot::protocol::{GameConfig, GameState, Hero, StartTurnArgs, Wall};
use hero_bot::tactics::TacticalAction;
use hero_bot::turn::{order_message, plan_turn, process_turn, Order, Phase};
use std::collections::HashMap;

fn config(size: i32) -> GameConfig {
    GameConfig {
        width: size,
        height: size,
        turns: 200,
        vision_range: 20,
        seed: 1,
        players: vec![],
        hero_types: HashMap::new(),
    }
}

fn hero(id: i32, owner_id: i32, p: (i32, i32), cooldown: i32) -> Hero {
    Hero { id, owner_id, type_: "mage".to_string(), x: p.0, y: p.1, hp: 10, cooldown }
}

struct Memory {
    phase: Phase,
    known: Vec<i32>,
    hunt: Option<i32>,
    focus: Option<i32>,
}

fn memory(phase: Phase) -> Memory {
    Memory { phase, known: vec![], hunt: None, focus: None }
}

fn play(m: &mut Memory, turn: i32, heroes: Vec<Hero>, walls: &[Wall]) -> Vec<Order> {
    let args = StartTurnArgs { turn, state: GameState { heroes, walls: vec![] } };
    plan_turn(
        1,
        &config(40),
        walls,
        &mut m.phase,
        &mut m.known,
        &mut m.hunt,
        &mut m.focus,
        10,
        19,
        &args,
    )
}

fn flat(order: &Order) -> (i32, bool, i32, i32, &'static str) {
    match order.action {
        TacticalAction::Shoot { target_x, target_y, comment } => {
            (order.hero_id, true, target_x, target_y, comment)
        }
        TacticalAction::Move { dest_x, dest_y, comment } => {
            (order.hero_id, false, dest_x, dest_y, comment)
        }
    }
}

#[test]
fn rally_ignores_enemies() {
    let mut m = memory(Phase::Rally);
    let orders = play(&mut m, 1, vec![hero(5, 1, (4, 4), 0), hero(9, 2, (16, 4), 0)], &[]);
    assert_eq!(m.phase, Phase::Rally);
    assert_eq!(orders.len(), 1);
    assert_eq!(flat(&orders[0]), (5, false, 4, 7, "🏃rally"));
    assert_eq!(m.known, vec![9]);
    assert_eq!(m.focus, Some(9));
}

#[test]
fn gathered_heroes_attack() {
    let mut m = memory(Phase::Rally);
    let orders = play(&mut m, 1, vec![hero(5, 1, (16, 16), 0), hero(6, 1, (1, 10), 0)], &[]);
    assert_eq!(m.phase, Phase::Attack);
    assert_eq!(flat(&orders[0]), (5, false, 19, 19, "🏃noenemies"));
    assert_eq!(orders[1].hero_id, 6);
}

#[test]
fn patrol_cycle() {
    for (turn, x, y) in [(0, 19, 19), (4, 19, 19), (5, 13, 16), (9, 13, 16), (10, 13, 16), (14, 13, 16), (15, 19, 19), (-3, 19, 19)] {
        let mut m = memory(Phase::Attack);
        let orders = play(&mut m, turn, vec![hero(5, 1, (16, 16), 0)], &[]);
        assert_eq!(flat(&orders[0]), (5, false, x, y, "🏃noenemies"), "turn {turn}");
    }
}

#[test]
fn patrol_to_the_left_edge_and_back() {
    let mut m = memory(Phase::Hunt);
    let orders = play(&mut m, 7, vec![hero(5, 1, (16, 31), 0)], &[]);
    assert_eq!(flat(&orders[0]), (5, false, 13, 31, "🏃noenemies"));
    let orders = play(&mut m, 12, vec![hero(5, 1, (16, 31), 0)], &[]);
    assert_eq!(flat(&orders[0]), (5, false, 16, 28, "🏃noenemies"));
}

#[test]
fn a_missing_enemy_starts_the_hunt() {
    let mut m = memory(Phase::Attack);
    m.known = vec![7, 8];
    m.focus = Some(7);
    let orders = play(&mut m, 20, vec![hero(5, 1, (4, 4), 0), hero(8, 2, (16, 4), 1)], &[]);
    assert_eq!(m.phase, Phase::Hunt);
    assert_eq!(m.hunt, Some(8));
    assert_eq!(m.focus, Some(8));
    assert_eq!(m.known, vec![7, 8]);
    assert_eq!(flat(&orders[0]), (5, true, 16, 4, "🔫"));
}

#[test]
fn nobody_missing_keeps_attacking() {
    let mut m = memory(Phase::Attack);
    m.known = vec![8];
    play(&mut m, 20, vec![hero(5, 1, (4, 4), 0), hero(8, 2, (16, 4), 1)], &[]);
    assert_eq!(m.phase, Phase::Attack);
    assert_eq!(m.hunt, None);
}

#[test]
fn the_quarry_changes_when_it_is_gone() {
    let mut m = memory(Phase::Hunt);
    m.hunt = Some(7);
    play(&mut m, 20, vec![hero(5, 1, (4, 4), 0), hero(8, 2, (16, 4), 1)], &[]);
    assert_eq!(m.hunt, Some(8));
    play(&mut m, 21, vec![hero(5, 1, (4, 4), 0)], &[]);
    assert_eq!(m.hunt, None);
    play(&mut m, 22, vec![hero(5, 1, (4, 4), 0), hero(8, 2, (16, 4), 1)], &[]);
    assert_eq!(m.hunt, None);
    assert_eq!(m.phase, Phase::Hunt);
}

#[test]
fn the_endgame_begins_from_any_phase_and_lasts() {
    for phase in [Phase::Rally, Phase::Attack, Phase::Hunt, Phase::Endgame] {
        let mut m = memory(phase);
        let orders = play(&mut m, 190, vec![hero(5, 1, (4, 4), 0)], &[]);
        assert_eq!(m.phase, Phase::Endgame);
        assert_eq!(flat(&orders[0]), (5, false, 7, 7, "🏃noenemies"));
        play(&mut m, 3, vec![hero(5, 1, (4, 4), 0)], &[]);
        assert_eq!(m.phase, Phase::Endgame);
    }
    let mut m = memory(Phase::Attack);
    play(&mut m, 189, vec![hero(5, 1, (4, 4), 0)], &[]);
    assert_eq!(m.phase, Phase::Attack);
}

#[test]
fn endgame_heroes_still_shoot() {
    let mut m = memory(Phase::Hunt);
    let orders = play(&mut m, 195, vec![hero(5, 1, (4, 4), 0), hero(8, 2, (16, 4), 1)], &[]);
    assert_eq!(flat(&orders[0]), (5, true, 16, 4, "🔫"));
}

#[test]
fn the_common_target_comes_before_a_nearer_enemy() {
    let heroes = vec![hero(5, 1, (4, 4), 0), hero(8, 2, (16, 4), 1), hero(9, 2, (25, 4), 1)];
    let mut m = memory(Phase::Attack);
    m.focus = Some(9);
    let orders = play(&mut m, 20, heroes.clone(), &[]);
    assert_eq!(flat(&orders[0]), (5, true, 25, 4, "🔫"));
    let mut m = memory(Phase::Attack);
    let orders = play(&mut m, 20, heroes, &[]);
    assert_eq!(m.focus, Some(8));
    assert_eq!(flat(&orders[0]), (5, true, 16, 4, "🔫"));
}

#[test]
fn a_hidden_target_gives_way_to_the_nearest_enemy() {
    let wall = vec![Wall { x: 13, y: 4 }];
    let mut m = memory(Phase::Attack);
    m.focus = Some(9);
    let heroes = vec![hero(5, 1, (4, 4), 0), hero(9, 2, (25, 4), 1), hero(8, 2, (4, 16), 1)];
    let orders = play(&mut m, 20, heroes, &wall);
    assert_eq!(m.focus, Some(9));
    assert_eq!(flat(&orders[0]), (5, true, 4, 16, "🔫"));
}

#[test]
fn equally_near_enemies_go_in_order() {
    let mut m = memory(Phase::Attack);
    m.focus = Some(70);
    let heroes = vec![
        hero(70, 2, (37, 37), 1),
        hero(5, 1, (16, 16), 0),
        hero(8, 2, (4, 16), 1),
        hero(9, 2, (28, 16), 1),
    ];
    let wall = vec![Wall { x: 28, y: 28 }];
    let orders = play(&mut m, 20, heroes, &wall);
    assert_eq!(flat(&orders[0]), (5, true, 4, 16, "🔫"));
}

#[test]
fn a_move_is_ordered_by_its_next_step() {
    let mut m = memory(Phase::Attack);
    let orders = play(&mut m, 20, vec![hero(5, 1, (16, 16), 0), hero(8, 2, (13, 16), 1)], &[]);
    assert_eq!(flat(&orders[0]), (5, false, 16, 19, "🏃retreat"));
}

#[test]
fn enemies_are_noted_once() {
    let mut m = memory(Phase::Rally);
    m.known = vec![3];
    let heroes = vec![hero(8, 2, (30, 4), 1), hero(3, 2, (33, 4), 1), hero(8, 3, (36, 4), 1)];
    play(&mut m, 1, heroes, &[]);
    assert_eq!(m.known, vec![3, 8]);
    assert_eq!(m.focus, None);
    assert_eq!(m.phase, Phase::Attack);
}

#[test]
fn orders_as_text() {
    let shot = Order {
        hero_id: 5,
        action: TacticalAction::Shoot { target_x: 16, target_y: 4, comment: "🔫" },
    };
    assert_eq!(
        order_message(&shot),
        r#"{"args":{"comment":"🔫","hero_id":5,"x":16,"y":4},"command":"SHOOT"}"#
    );
    let step = Order {
        hero_id: 6,
        action: TacticalAction::Move { dest_x: 1, dest_y: 2, comment: "🔍hunt" },
    };
    assert_eq!(
        order_message(&step),
        r#"{"args":{"comment":"🔍hunt","hero_id":6,"x":1,"y":2},"command":"MOVE"}"#
    );
}

#[test]
fn messages_of_a_turn() {
    let args = StartTurnArgs {
        turn: 20,
        state: GameState {
            heroes: vec![hero(5, 1, (4, 4), 0), hero(8, 2, (16, 4), 1), hero(6, 1, (37, 37), 4)],
            walls: vec![],
        },
    };
    let mut m = memory(Phase::Attack);
    let messages = process_turn(
        1,
        &config(40),
        &[],
        &mut m.phase,
        &mut m.known,
        &mut m.hunt,
        &mut m.focus,
        10,
        19,
        0,
        0,
        &args,
    );
    assert_eq!(
        messages,
        vec![
            r#"{"args":{"comment":"🔫","hero_id":5,"x":16,"y":4},"command":"SHOOT"}"#.to_string(),
            r#"{"args":{"comment":"→aproach","hero_id":6,"x":37,"y":34},"command":"MOVE"}"#.to_string(),
        ]
    );
}

fn play_on(size: i32, m: &mut Memory, turn: i32, heroes: Vec<Hero>, walls: &[Wall]) -> Vec<String> {
    let args = StartTurnArgs { turn, state: GameState { heroes, walls: vec![] } };
    process_turn(
        1,
        &config(size),
        walls,
        &mut m.phase,
        &mut m.known,
        &mut m.hunt,
        &mut m.focus,
        10,
        10,
        0,
        0,
        &args,
    )
}

#[test]
fn endgame_heroes_that_cannot_shoot_go_to_the_centre() {
    let mut m = memory(Phase::Attack);
    m.known = vec![7];
    let heroes = vec![hero(1, 1, (10, 10), 2), hero(7, 2, (10, 40), 1)];
    assert_eq!(
        play_on(60, &mut m, 195, heroes.clone(), &[]),
        vec![r#"{"args":{"comment":"→aproach","hero_id":1,"x":13,"y":13},"command":"MOVE"}"#.to_string()]
    );
    assert_eq!(m.phase, Phase::Endgame);
    let mut m = memory(Phase::Attack);
    m.known = vec![7];
    assert_eq!(
        play_on(60, &mut m, 189, heroes, &[]),
        vec![r#"{"args":{"comment":"→aproach","hero_id":1,"x":10,"y":13},"command":"MOVE"}"#.to_string()]
    );
    assert_eq!(m.phase, Phase::Attack);
}

#[test]
fn endgame_heroes_retreat_first() {
    let mut m = memory(Phase::Endgame);
    let orders = play(&mut m, 195, vec![hero(5, 1, (16, 16), 0), hero(8, 2, (13, 16), 1)], &[]);
    assert_eq!(flat(&orders[0]), (5, false, 16, 19, "🏃retreat"));
    let mut m = memory(Phase::Endgame);
    let orders = play(&mut m, 195, vec![hero(5, 1, (16, 31), 2), hero(8, 2, (16, 22), 1)], &[]);
    assert_eq!(flat(&orders[0]).1, false);
    assert_eq!((flat(&orders[0]).2, flat(&orders[0]).3), (16, 28));
}

#[test]
fn an_enemy_in_sight_comes_before_a_nearer_hidden_one() {
    let walls = vec![Wall { x: 10, y: 16 }];
    let mut m = memory(Phase::Attack);
    m.known = vec![7, 8];
    m.focus = Some(7);
    let heroes =
        vec![hero(1, 1, (10, 10), 0), hero(7, 2, (10, 22), 5), hero(8, 2, (40, 10), 5)];
    assert_eq!(
        play_on(60, &mut m, 3, heroes, &walls),
        vec![r#"{"args":{"comment":"🔫","hero_id":1,"x":40,"y":10},"command":"SHOOT"}"#.to_string()]
    );
    assert_eq!(m.focus, Some(7));
    assert_eq!(m.phase, Phase::Attack);
}

#[test]
fn with_nobody_in_sight_the_nearest_enemy_is_hunted() {
    let walls = vec![Wall { x: 10, y: 16 }];
    let mut m = memory(Phase::Attack);
    let heroes = vec![hero(1, 1, (10, 10), 0), hero(8, 2, (10, 37), 5), hero(7, 2, (10, 22), 5)];
    let texts = play_on(60, &mut m, 3, heroes, &walls);
    assert_eq!(m.focus, None);
    assert!(texts[0].contains("🔍hunt"));
}
