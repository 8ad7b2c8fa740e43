use hero_bot::bot::{is_preparable, server_command, Bot, Reply, ServerCommand, ServerEvent};
use hero_bot::protocol::{
    EndMatchArgs, GameConfig, GameState, Hero, Player, PlayerHeroSpawn, StartMatchArgs,
    StartTurnArgs, Wall,
};
use hero_bot::turn::Phase;
use std::collections::HashMap;

fn player(id: i32, spawns: &[(i32, i32)]) -> Player {
    let heroes = spawns
        .iter()
        .map(|p| PlayerHeroSpawn { id: 1, x: p.0, y: p.1, type_: "mage".to_string() })
        .collect();
    Player { id, name: "p".to_string(), heroes }
}

fn start(size: i32, players: Vec<Player>, walls: Vec<Wall>) -> StartMatchArgs {
    StartMatchArgs {
        match_id: "m".to_string(),
        your_player_id: 1,
        config: GameConfig {
            width: size,
            height: size,
            turns: 200,
            vision_range: 20,
            seed: 1,
            players,
            hero_types: HashMap::new(),
        },
        state: GameState { heroes: vec![], walls },
    }
}

fn turn(turn: i32) -> StartTurnArgs {
    let heroes = vec![
        Hero { id: 5, owner_id: 1, type_: "mage".to_string(), x: 10, y: 10, hp: 1, cooldown: 0 },
        Hero { id: 9, owner_id: 2, type_: "mage".to_string(), x: 10, y: 22, hp: 1, cooldown: 0 },
    ];
    StartTurnArgs { turn, state: GameState { heroes, walls: vec![] } }
}

fn sent(reply: Reply) -> String {
    match reply {
        Reply::Send(text) => text,
        other => panic!("{other:?}"),
    }
}

#[test]
fn words_of_the_server() {
    let words = [
        ("HELLO", ServerCommand::Hello),
        ("READY", ServerCommand::Ready),
        ("START_MATCH", ServerCommand::StartMatch),
        ("START_TURN", ServerCommand::StartTurn),
        ("END_MATCH", ServerCommand::EndMatch),
        ("ERROR", ServerCommand::Error),
        ("hello", ServerCommand::Unknown),
        ("", ServerCommand::Unknown),
    ];
    for (word, command) in words {
        assert_eq!(server_command(&word.to_string()), command);
    }
}

#[test]
fn greetings_are_answered() {
    let mut bot = Bot::new();
    assert_eq!(
        sent(bot.handle(ServerEvent::Hello)),
        r#"{"args":{"name":"Damoc_Damian","version":1},"command":"LOGIN"}"#
    );
    assert_eq!(sent(bot.handle(ServerEvent::Ready)), r#"{"args":{},"command":"PRACTICE"}"#);
    assert!(bot.config.is_none());
}

#[test]
fn turns_outside_a_match_are_not_played() {
    let mut bot = Bot::new();
    assert!(matches!(bot.handle(ServerEvent::StartTurn(turn(1))), Reply::Nothing));
    assert!(bot.start_turn(&turn(1)).is_none());
    assert!(bot.known_enemy_ids.is_empty());
}

#[test]
fn preparing_from_the_top() {
    let mut bot = Bot::new();
    let args = start(60, vec![player(2, &[(31, 58)]), player(1, &[(28, 4)])], vec![]);
    assert!(is_preparable(&args));
    assert!(matches!(bot.handle(ServerEvent::StartMatch(args)), Reply::Nothing));
    assert_eq!((bot.rally_x, bot.rally_y), (10, 19));
    assert_eq!((bot.attack_x, bot.attack_y), (31, 58));
    assert_eq!(bot.my_player_id, 1);
}

#[test]
fn preparing_from_the_bottom() {
    let mut bot = Bot::new();
    let args = start(60, vec![player(1, &[(28, 55), (1, 1)]), player(2, &[(31, 4)])], vec![]);
    bot.start_match(args);
    assert_eq!((bot.rally_x, bot.rally_y), (10, 40));
    assert_eq!((bot.attack_x, bot.attack_y), (31, 1));
}

#[test]
fn preparing_without_spawns() {
    let mut bot = Bot::new();
    bot.start_match(start(60, vec![player(1, &[]), player(2, &[]), player(3, &[(4, 4)])], vec![]));
    assert_eq!((bot.rally_x, bot.rally_y), (10, 19));
    assert_eq!((bot.attack_x, bot.attack_y), (31, 58));
    bot.start_match(start(60, vec![], vec![Wall { x: 10, y: 19 }]));
    assert_eq!((bot.rally_x, bot.rally_y), (13, 19));
    assert_eq!(bot.map_walls.len(), 1);
}

#[test]
fn matches_out_of_range() {
    assert!(!is_preparable(&start(60, vec![player(2, &[(i32::MIN, 0)])], vec![])));
    assert!(!is_preparable(&start(i32::MIN + 20, vec![], vec![])));
    assert!(is_preparable(&start(i32::MIN + 21, vec![], vec![])));
}

#[test]
fn a_new_match_forgets_the_last_one() {
    let mut bot = Bot::new();
    bot.start_match(start(60, vec![], vec![Wall { x: 40, y: 40 }]));
    let reply = bot.handle(ServerEvent::StartTurn(turn(1)));
    match reply {
        Reply::SendAll(texts) => assert_eq!(
            texts,
            vec![r#"{"args":{"comment":"🔫","hero_id":5,"x":10,"y":22},"command":"SHOOT"}"#.to_string()]
        ),
        other => panic!("{other:?}"),
    }
    assert_eq!(bot.phase, Phase::Attack);
    assert_eq!(bot.known_enemy_ids, vec![9]);
    assert_eq!(bot.focus_target_id, Some(9));
    bot.start_match(start(60, vec![], vec![]));
    assert_eq!(bot.phase, Phase::Rally);
    assert!(bot.known_enemy_ids.is_empty());
    assert_eq!(bot.focus_target_id, None);
    assert_eq!(bot.hunt_target_id, None);
    assert!(bot.map_walls.is_empty());
}

#[test]
fn memory_stays_consistent() {
    let mut bot = Bot::new();
    bot.start_match(start(60, vec![], vec![]));
    for n in 1..30 {
        let mut args = turn(n);
        args.state.heroes[1].id = 9 + n / 10;
        bot.start_turn(&args);
        let mut ids = bot.known_enemy_ids.clone();
        ids.dedup();
        assert_eq!(ids, bot.known_enemy_ids);
        if let Some(id) = bot.focus_target_id {
            assert!(bot.known_enemy_ids.contains(&id));
        }
        if let Some(id) = bot.hunt_target_id {
            assert!(bot.known_enemy_ids.contains(&id));
        }
    }
    assert_eq!(bot.known_enemy_ids, vec![9, 10, 11]);
    assert_eq!(bot.phase, Phase::Hunt);
    assert_eq!(bot.hunt_target_id, Some(11));
}

#[test]
fn endings_and_errors() {
    let mut bot = Bot::new();
    let end = EndMatchArgs { reason: "time".to_string(), winner: None };
    assert!(matches!(bot.handle(ServerEvent::EndMatch(end)), Reply::Stop));
    let fatal = serde_json::from_str(r#"{"fatal":true}"#).unwrap();
    assert!(matches!(bot.handle(ServerEvent::Error(fatal)), Reply::Stop));
    let mild = serde_json::from_str(r#"{"fatal":false,"message":"x"}"#).unwrap();
    assert!(matches!(bot.handle(ServerEvent::Error(mild)), Reply::Nothing));
    assert!(matches!(bot.handle(ServerEvent::Unknown), Reply::Nothing));
}
