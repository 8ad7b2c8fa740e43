//! The records that the game server and the bot exchange.
use std::collections::HashMap;
use vstd::prelude::*;

verus! {

/// The protocol version announced at login.
pub const PROTOCOL_VERSION: i32 = 1;

/// Where one hero of a player enters the map.
#[derive(Debug, Clone)]
pub struct PlayerHeroSpawn {
    pub id: i32,
    pub x: i32,
    pub y: i32,
    pub type_: String,
}

/// A player and the heroes that player starts with.
#[derive(Debug, Clone)]
pub struct Player {
    pub id: i32,
    pub name: String,
    pub heroes: Vec<PlayerHeroSpawn>,
}

/// The combat values shared by all heroes of one type.
#[derive(Debug, Clone)]
pub struct HeroTypeConfig {
    pub shoot_cooldown: i32,
    pub projectile_ttl: i32,
    pub projectile_speed: i32,
    pub max_hp: i32,
    pub projectile_damage: i32,
}

/// What stays fixed during a match.
#[derive(Debug, Clone)]
pub struct GameConfig {
    pub width: i32,
    pub height: i32,
    pub turns: i32,
    pub vision_range: i32,
    pub seed: u32,
    pub players: Vec<Player>,
    pub hero_types: HashMap<String, HeroTypeConfig>,
}

/// A hero on the map, ours or an enemy's.
#[derive(Debug, Clone)]
pub struct Hero {
    pub id: i32,
    pub owner_id: i32,
    pub type_: String,
    pub x: i32,
    pub y: i32,
    pub hp: i32,
    pub cooldown: i32,
}

/// A wall tile, given by its centre.
#[derive(Debug, Clone)]
pub struct Wall {
    pub x: i32,
    pub y: i32,
}

/// What the server shows at the start of a match or of a turn.
#[derive(Debug, Clone)]
pub struct GameState {
    pub heroes: Vec<Hero>,
    pub walls: Vec<Wall>,
}

/// The arguments of `START_MATCH`.
#[derive(Debug, Clone)]
pub struct StartMatchArgs {
    pub match_id: String,
    pub your_player_id: i32,
    pub config: GameConfig,
    pub state: GameState,
}

/// The arguments of `START_TURN`.
#[derive(Debug, Clone)]
pub struct StartTurnArgs {
    pub turn: i32,
    pub state: GameState,
}

/// The arguments of `END_MATCH`.
#[derive(Debug, Clone)]
pub struct EndMatchArgs {
    pub reason: String,
    pub winner: Option<String>,
}

} // verus!
