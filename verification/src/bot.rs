//! The bot between messages: what it remembers and how it answers.
use crate::grid::arena;
use crate::json::{json_content, json_text, Json};
use crate::message::{
    envelope, error_is_fatal, login_args, login_text, match_request_text, says_fatal,
    VERSUS_PLAYERS,
};
use crate::protocol::{
    EndMatchArgs, GameConfig, Player, PlayerHeroSpawn, StartMatchArgs, StartTurnArgs, Wall,
};
use crate::targets::{
    column_down, column_target, column_up, find_bottom_target, find_rally_point, find_top_target,
    half, rally_point,
};
use crate::turn::{
    foes, hero_intent, hunt_after, ids, known_after, law_focus_is_there, law_known_enemies,
    order_texts, orders_for, own_heroes, phase_entered, process_turn, situation, text_of, texts,
    OrderModel, Phase, Situation,
};
use vstd::prelude::*;

verus! {

/// The commands the server sends.
#[derive(Debug, Clone, Copy, PartialEq, Eq, Structural)]
pub enum ServerCommand {
    Hello,
    Ready,
    StartMatch,
    StartTurn,
    EndMatch,
    Error,
    Unknown,
}

/// The command that a word stands for.
pub open spec fn command_of(word: Seq<char>) -> ServerCommand {
    if word == "HELLO"@ {
        ServerCommand::Hello
    } else if word == "READY"@ {
        ServerCommand::Ready
    } else if word == "START_MATCH"@ {
        ServerCommand::StartMatch
    } else if word == "START_TURN"@ {
        ServerCommand::StartTurn
    } else if word == "END_MATCH"@ {
        ServerCommand::EndMatch
    } else if word == "ERROR"@ {
        ServerCommand::Error
    } else {
        ServerCommand::Unknown
    }
}

/// Recognises a command by its word.
pub fn server_command(word: &String) -> (command: ServerCommand)
    ensures
        command == command_of(word@),
{
    if *word == "HELLO".to_owned() {
        ServerCommand::Hello
    } else if *word == "READY".to_owned() {
        ServerCommand::Ready
    } else if *word == "START_MATCH".to_owned() {
        ServerCommand::StartMatch
    } else if *word == "START_TURN".to_owned() {
        ServerCommand::StartTurn
    } else if *word == "END_MATCH".to_owned() {
        ServerCommand::EndMatch
    } else if *word == "ERROR".to_owned() {
        ServerCommand::Error
    } else {
        ServerCommand::Unknown
    }
}

/// A message from the server with its arguments read.
#[derive(Debug)]
pub enum ServerEvent {
    Hello,
    Ready,
    StartMatch(StartMatchArgs),
    StartTurn(StartTurnArgs),
    EndMatch(EndMatchArgs),
    Error(serde_json::Value),
    Unknown,
}

/// What the bot does about a message.
#[derive(Debug)]
pub enum Reply {
    /// Wait for the next message.
    Nothing,
    /// Send one message.
    Send(String),
    /// Send the messages of a turn together.
    SendAll(Vec<String>),
    /// Leave.
    Stop,
}

/// What the bot remembers from one message to the next.
#[derive(Debug)]
pub struct Bot {
    pub config: Option<GameConfig>,
    pub my_player_id: i32,
    pub phase: Phase,
    pub known_enemy_ids: Vec<i32>,
    pub hunt_target_id: Option<i32>,
    pub focus_target_id: Option<i32>,
    pub rally_x: i32,
    pub rally_y: i32,
    pub attack_x: i32,
    pub attack_y: i32,
    pub map_walls: Vec<Wall>,
}

/// The first hero of the first player that is, or is not, the given one.
pub open spec fn first_spawn(players: Seq<Player>, player: i32, same: bool) -> Option<
    PlayerHeroSpawn,
>
    decreases players.len(),
{
    if players.len() == 0 {
        None
    } else if (players[0].id == player) == same {
        if players[0].heroes@.len() == 0 {
            None
        } else {
            Some(players[0].heroes@[0])
        }
    } else {
        first_spawn(players.drop_first(), player, same)
    }
}

/// The bot's side enters in the lower half of the map.
pub open spec fn starts_at_bottom(args: StartMatchArgs) -> bool {
    let y = match first_spawn(args.config.players@, args.your_player_id, true) {
        Some(spawn) => spawn.y as int,
        None => 0,
    };
    y > half(args.config.height as int)
}

/// The column in which the other side enters; the middle of the map where
/// nothing is known of it.
pub open spec fn enemy_column(args: StartMatchArgs) -> int {
    match first_spawn(args.config.players@, args.your_player_id, false) {
        Some(spawn) => spawn.x as int,
        None => half(args.config.width as int),
    }
}

/// Where the bot would have its heroes gather: near the left edge, about
/// twenty units from its own side.
pub open spec fn rally_centre(args: StartMatchArgs) -> (int, int) {
    (
        10,
        if starts_at_bottom(args) {
            args.config.height - 20
        } else {
            19
        },
    )
}

/// The point the bot would attack: the open point of the enemy's column
/// farthest from its own side.
pub open spec fn attack_point(args: StartMatchArgs) -> (int, int) {
    let x = enemy_column(args);
    let map = arena(args.state.walls@, args.config.width, args.config.height);
    if starts_at_bottom(args) {
        column_target(column_down(x, args.config.height as int), x, map)
    } else {
        column_target(column_up(x, args.config.height as int), x, map)
    }
}

/// The coordinates that have to be snapped before a match are in range.
pub open spec fn can_prepare(args: StartMatchArgs) -> bool {
    rally_centre(args).1 > i32::MIN && enemy_column(args) > i32::MIN
}

/// Where every earlier player is passed over, the first spawn is that of the
/// next player, if that one is not.
proof fn lemma_first_spawn(players: Seq<Player>, player: i32, same: bool, n: int)
    requires
        0 <= n <= players.len(),
        forall|i: int| 0 <= i < n ==> ((#[trigger] players[i]).id == player) != same,
    ensures
        n < players.len() && (players[n].id == player) == same ==> first_spawn(
            players,
            player,
            same,
        ) == (if players[n].heroes@.len() == 0 {
            None
        } else {
            Some(players[n].heroes@[0])
        }),
        n == players.len() ==> first_spawn(players, player, same) is None,
    decreases n,
{
    if n > 0 {
        let rest = players.drop_first();
        assert((players[0].id == player) != same);
        assert forall|i: int| 0 <= i < n - 1 implies ((#[trigger] rest[i]).id == player) != same by {
            assert(rest[i] == players[i + 1]);
        }
        lemma_first_spawn(rest, player, same, n - 1);
    }
}

/// Where the first hero of the first player that is, or is not, the given one
/// enters the map.
fn find_spawn(players: &Vec<Player>, player: i32, same: bool) -> (p: Option<(i32, i32)>)
    ensures
        p == (match first_spawn(players@, player, same) {
            Some(spawn) => Some((spawn.x, spawn.y)),
            None => None,
        }),
{
    for i in 0..players.len()
        invariant
            forall|j: int| 0 <= j < i ==> ((#[trigger] players@[j]).id == player) != same,
    {
        if (players[i].id == player) == same {
            proof {
                lemma_first_spawn(players@, player, same, i as int);
            }
            if players[i].heroes.len() > 0 {
                return Some((players[i].heroes[0].x, players[i].heroes[0].y));
            }
            return None;
        }
    }
    proof {
        lemma_first_spawn(players@, player, same, players@.len() as int);
    }
    None
}

/// Whether the bot's side enters in the lower half of the map.
fn at_bottom(args: &StartMatchArgs) -> (r: bool)
    ensures
        r == starts_at_bottom(*args),
{
    let y: i32 = match find_spawn(&args.config.players, args.your_player_id, true) {
        Some(p) => p.1,
        None => 0,
    };
    y > args.config.height / 2
}

/// The column in which the other side enters.
fn find_enemy_column(args: &StartMatchArgs) -> (x: i32)
    ensures
        x == enemy_column(*args),
{
    match find_spawn(&args.config.players, args.your_player_id, false) {
        Some(p) => p.0,
        None => args.config.width / 2,
    }
}

/// Whether the coordinates that have to be snapped before a match are in
/// range.
pub fn is_preparable(args: &StartMatchArgs) -> (r: bool)
    ensures
        r == can_prepare(*args),
{
    let low_enough: bool = !at_bottom(args) || args.config.height as i64 - 20 > i32::MIN as i64;
    low_enough && find_enemy_column(args) > i32::MIN
}

impl Bot {
    /// A bot that has not been told of any match.
    pub fn new() -> (bot: Bot)
        ensures
            bot.config is None,
            bot.my_player_id == 0,
            bot.phase == Phase::Rally,
            bot.known_enemy_ids@ == Seq::<i32>::empty(),
            bot.hunt_target_id is None,
            bot.focus_target_id is None,
            (bot.rally_x, bot.rally_y) == (0i32, 0i32),
            (bot.attack_x, bot.attack_y) == (0i32, 0i32),
            bot.map_walls@ == Seq::<Wall>::empty(),
    {
        Bot {
            config: None,
            my_player_id: 0,
            phase: Phase::Rally,
            known_enemy_ids: Vec::new(),
            hunt_target_id: None,
            focus_target_id: None,
            rally_x: 0,
            rally_y: 0,
            attack_x: 0,
            attack_y: 0,
            map_walls: Vec::new(),
        }
    }

    /// The bot is ready for the first turn of a match.
    pub open spec fn is_prepared_for(self, args: StartMatchArgs) -> bool {
        &&& self.config == Some(args.config)
        &&& self.my_player_id == args.your_player_id
        &&& self.phase == Phase::Rally
        &&& self.known_enemy_ids@ == Seq::<i32>::empty()
        &&& self.hunt_target_id is None
        &&& self.focus_target_id is None
        &&& (self.rally_x as int, self.rally_y as int) == rally_point(
            rally_centre(args),
            arena(args.state.walls@, args.config.width, args.config.height),
        )
        &&& (self.attack_x as int, self.attack_y as int) == attack_point(args)
        &&& self.map_walls == args.state.walls
    }

    /// Forgets the last match and prepares for a new one.
    pub fn start_match(&mut self, args: StartMatchArgs)
        requires
            can_prepare(args),
        ensures
            final(self).is_prepared_for(args),
    {
        let bottom: bool = at_bottom(&args);
        let enemy_spawn_x: i32 = find_enemy_column(&args);
        let map_w: i32 = args.config.width;
        let map_h: i32 = args.config.height;
        let rally_tile_y: i32 = if bottom {
            map_h - 20
        } else {
            19
        };
        let (rx, ry) = find_rally_point(
            map_w,
            map_h,
            args.state.walls.as_slice(),
            10,
            rally_tile_y,
        );
        let (ax, ay) = if bottom {
            find_top_target(enemy_spawn_x, map_h, args.state.walls.as_slice(), map_w)
        } else {
            find_bottom_target(enemy_spawn_x, map_h, args.state.walls.as_slice(), map_w)
        };
        self.rally_x = rx;
        self.rally_y = ry;
        self.attack_x = ax;
        self.attack_y = ay;
        self.my_player_id = args.your_player_id;
        self.phase = Phase::Rally;
        self.known_enemy_ids = Vec::new();
        self.hunt_target_id = None;
        self.focus_target_id = None;
        self.map_walls = args.state.walls;
        self.config = Some(args.config);
    }

    /// The situation in which the bot plays a turn of its match.
    pub open spec fn situation_in(self, args: StartTurnArgs) -> Situation {
        situation(
            self.my_player_id,
            arena(self.map_walls@, self.config->0.width, self.config->0.height),
            self.phase,
            self.known_enemy_ids@,
            self.focus_target_id,
            (self.rally_x as int, self.rally_y as int),
            args.turn as int,
            args.state.heroes@,
        )
    }

    /// What the bot remembers of its match once it has played a turn.
    pub open spec fn has_played(self, before: Bot, args: StartTurnArgs) -> bool {
        let enemies = foes(args.state.heroes@, before.my_player_id);
        let s = before.situation_in(args);
        &&& self.config == before.config
        &&& self.my_player_id == before.my_player_id
        &&& self.phase == s.phase
        &&& self.known_enemy_ids@ == known_after(before.known_enemy_ids@, enemies)
        &&& self.hunt_target_id == hunt_after(
            before.hunt_target_id,
            phase_entered(before.phase, args.turn as int),
            enemies,
            self.known_enemy_ids@,
        )
        &&& self.focus_target_id == s.focus
        &&& self.rally_x == before.rally_x
        &&& self.rally_y == before.rally_y
        &&& self.attack_x == before.attack_x
        &&& self.attack_y == before.attack_y
        &&& self.map_walls == before.map_walls
    }

    /// What the messages of a turn say.
    pub open spec fn turn_texts(self, args: StartTurnArgs) -> Seq<Seq<char>> {
        order_texts(
            orders_for(
                own_heroes(args.state.heroes@, self.my_player_id),
                self.situation_in(args),
            ),
        )
    }

    /// Plays a turn; outside a match there is nothing to play.
    pub fn start_turn(&mut self, args: &StartTurnArgs) -> (messages: Option<Vec<String>>)
        ensures
            messages is Some <==> old(self).config is Some,
            old(self).config is None ==> *final(self) == *old(self),
            old(self).config is Some ==> {
                &&& final(self).has_played(*old(self), *args)
                &&& texts(messages->0@) == old(self).turn_texts(*args)
            },
    {
        match &self.config {
            None => None,
            Some(config) => Some(
                process_turn(
                    self.my_player_id,
                    config,
                    self.map_walls.as_slice(),
                    &mut self.phase,
                    &mut self.known_enemy_ids,
                    &mut self.hunt_target_id,
                    &mut self.focus_target_id,
                    self.rally_x,
                    self.rally_y,
                    self.attack_x,
                    self.attack_y,
                    args,
                ),
            ),
        }
    }

    /// Takes in a message from the server and answers it.
    pub fn handle(&mut self, event: ServerEvent) -> (reply: Reply)
        requires
            event matches ServerEvent::StartMatch(args) ==> can_prepare(args),
        ensures
            match event {
                ServerEvent::Hello => {
                    &&& *final(self) == *old(self)
                    &&& reply matches Reply::Send(text)
                    &&& text@ == json_text(envelope("LOGIN"@, login_args()))
                },
                ServerEvent::Ready => {
                    &&& *final(self) == *old(self)
                    &&& reply matches Reply::Send(text)
                    &&& text@ == json_text(
                        envelope(
                            if VERSUS_PLAYERS {
                                "CHALLENGE"@
                            } else {
                                "PRACTICE"@
                            },
                            Json::Object(Map::empty()),
                        ),
                    )
                },
                ServerEvent::StartMatch(args) => {
                    &&& final(self).is_prepared_for(args)
                    &&& reply is Nothing
                },
                ServerEvent::StartTurn(args) => if old(self).config is Some {
                    &&& final(self).has_played(*old(self), args)
                    &&& reply matches Reply::SendAll(messages)
                    &&& texts(messages@) == old(self).turn_texts(args)
                } else {
                    &&& *final(self) == *old(self)
                    &&& reply is Nothing
                },
                ServerEvent::EndMatch(args) => {
                    &&& *final(self) == *old(self)
                    &&& reply is Stop
                },
                ServerEvent::Error(args) => {
                    &&& *final(self) == *old(self)
                    &&& if says_fatal(json_content(args)) {
                        reply is Stop
                    } else {
                        reply is Nothing
                    }
                },
                ServerEvent::Unknown => {
                    &&& *final(self) == *old(self)
                    &&& reply is Nothing
                },
            },
    {
        match event {
            ServerEvent::Hello => Reply::Send(login_text()),
            ServerEvent::Ready => Reply::Send(match_request_text()),
            ServerEvent::StartMatch(args) => {
                self.start_match(args);
                Reply::Nothing
            },
            ServerEvent::StartTurn(args) => match self.start_turn(&args) {
                Some(messages) => Reply::SendAll(messages),
                None => Reply::Nothing,
            },
            ServerEvent::EndMatch(_) => Reply::Stop,
            ServerEvent::Error(args) => if error_is_fatal(&args) {
                Reply::Stop
            } else {
                Reply::Nothing
            },
            ServerEvent::Unknown => Reply::Nothing,
        }
    }
}

/// What the bot remembers of its enemies fits together: each is noted once,
/// and both the common target and the quarry are enemies it has seen.
pub open spec fn is_consistent(bot: Bot) -> bool {
    &&& bot.known_enemy_ids@.no_duplicates()
    &&& bot.focus_target_id matches Some(id) ==> bot.known_enemy_ids@.contains(id)
    &&& bot.hunt_target_id matches Some(id) ==> bot.known_enemy_ids@.contains(id)
}

/// What the bot remembers fits together at the start of a match and after
/// every turn.
pub proof fn law_memory_stays_consistent(
    bot: Bot,
    match_args: StartMatchArgs,
    before: Bot,
    turn_args: StartTurnArgs,
)
    ensures
        bot.is_prepared_for(match_args) ==> is_consistent(bot),
        is_consistent(before) && bot.has_played(before, turn_args) ==> is_consistent(bot),
{
    if is_consistent(before) && bot.has_played(before, turn_args) {
        let heroes = turn_args.state.heroes@;
        let enemies = foes(heroes, before.my_player_id);
        law_known_enemies(before.known_enemy_ids@, enemies);
        law_focus_is_there(
            before.focus_target_id,
            own_heroes(heroes, before.my_player_id),
            enemies,
            before.map_walls@,
        );
        if enemies.len() > 0 {
            assert(ids(enemies)[0] == enemies[0].id);
        }
        assert(bot.focus_target_id matches Some(id) ==> ids(enemies).contains(id));
    }
}

/// Each command has its word, and every other word stands for none.
pub proof fn law_commands(word: Seq<char>)
    ensures
        command_of(word) == ServerCommand::Hello <==> word == "HELLO"@,
        command_of(word) == ServerCommand::Ready <==> word == "READY"@,
        command_of(word) == ServerCommand::StartMatch <==> word == "START_MATCH"@,
        command_of(word) == ServerCommand::StartTurn <==> word == "START_TURN"@,
        command_of(word) == ServerCommand::EndMatch <==> word == "END_MATCH"@,
        command_of(word) == ServerCommand::Error <==> word == "ERROR"@,
{
    reveal_strlit("HELLO");
    reveal_strlit("READY");
    reveal_strlit("START_MATCH");
    reveal_strlit("START_TURN");
    reveal_strlit("END_MATCH");
    reveal_strlit("ERROR");
    assert("HELLO"@[0] != "READY"@[0]);
    assert("HELLO"@[0] != "ERROR"@[0]);
    assert("READY"@[0] != "ERROR"@[0]);
    assert("START_MATCH"@.len() == 11);
    assert("START_TURN"@.len() == 10);
    assert("END_MATCH"@.len() == 9);
}

/// The first spawn is that of the first player that is, or is not, the given
/// one, whoever comes later; it is the first hero of that player, and there is
/// none if that player has no heroes or there is no such player.
pub proof fn law_first_spawn(players: Seq<Player>, player: i32, same: bool, n: int)
    requires
        0 <= n < players.len(),
        (players[n].id == player) == same,
        forall|i: int| 0 <= i < n ==> ((#[trigger] players[i]).id == player) != same,
    ensures
        players[n].heroes@.len() == 0 ==> first_spawn(players, player, same) is None,
        players[n].heroes@.len() > 0 ==> first_spawn(players, player, same) == Some(
            players[n].heroes@[0],
        ),
{
    lemma_first_spawn(players, player, same, n);
}

/// Where no player is, or is not, the given one, there is no first spawn.
pub proof fn law_no_spawn(players: Seq<Player>, player: i32, same: bool)
    requires
        forall|i: int| 0 <= i < players.len() ==> ((#[trigger] players[i]).id == player) != same,
    ensures
        first_spawn(players, player, same) is None,
{
    lemma_first_spawn(players, player, same, players.len() as int);
}

/// How a match is prepared. If the bot's first hero enters below the middle of
/// the map, the heroes gather around a point twenty units from the lower edge
/// and would attack the highest open point of the enemy's column; otherwise
/// they gather around row nineteen and would attack the lowest one. They gather
/// near the left edge. The enemy's column is that of its first hero, or the
/// middle one where nothing is known of it.
pub proof fn law_preparation(args: StartMatchArgs)
    ensures
        ({
            let own = first_spawn(args.config.players@, args.your_player_id, true);
            let enemy = first_spawn(args.config.players@, args.your_player_id, false);
            let height = args.config.height as int;
            let below = own is Some && own->0.y > half(height) || own is None && 0 > half(height);
            let x = if enemy is Some {
                enemy->0.x as int
            } else {
                half(args.config.width as int)
            };
            let map = arena(args.state.walls@, args.config.width, args.config.height);
            &&& rally_centre(args).0 == 10
            &&& below ==> rally_centre(args).1 == height - 20
            &&& !below ==> rally_centre(args).1 == 19
            &&& below ==> attack_point(args) == column_target(column_down(x, height), x, map)
            &&& !below ==> attack_point(args) == column_target(column_up(x, height), x, map)
        }),
{
}

/// A match can be prepared whenever twenty units can be taken off the height of
/// the map and every hero enters in a column that can be snapped.
pub proof fn law_can_prepare(args: StartMatchArgs)
    requires
        args.config.height >= i32::MIN + 21,
        forall|i: int, j: int|
            #![trigger args.config.players@[i].heroes@[j]]
            0 <= i < args.config.players@.len() && 0 <= j < args.config.players@[i].heroes@.len()
                ==> args.config.players@[i].heroes@[j].x > i32::MIN,
    ensures
        can_prepare(args),
{
    lemma_spawn_of_a_player(args.config.players@, args.your_player_id, false);
    if let Some(spawn) = first_spawn(args.config.players@, args.your_player_id, false) {
        let i = choose|i: int|
            0 <= i < args.config.players@.len() && args.config.players@[i].heroes@.len() > 0
                && (#[trigger] args.config.players@[i]).heroes@[0] == spawn;
        assert(args.config.players@[i].heroes@[0].x > i32::MIN);
    }
}

/// A first spawn is the first hero of one of the players.
proof fn lemma_spawn_of_a_player(players: Seq<Player>, player: i32, same: bool)
    ensures
        first_spawn(players, player, same) matches Some(spawn) ==> exists|i: int|
            0 <= i < players.len() && players[i].heroes@.len() > 0 && (
            #[trigger] players[i]).heroes@[0] == spawn,
    decreases players.len(),
{
    if players.len() > 0 {
        let rest = players.drop_first();
        if (players[0].id == player) == same {
            if players[0].heroes@.len() > 0 {
                assert(players[0].heroes@[0] == first_spawn(players, player, same)->0);
            }
        } else {
            lemma_spawn_of_a_player(rest, player, same);
            if let Some(spawn) = first_spawn(rest, player, same) {
                let i = choose|i: int|
                    0 <= i < rest.len() && rest[i].heroes@.len() > 0 && (
                    #[trigger] rest[i]).heroes@[0] == spawn;
                assert(players[i + 1] == rest[i]);
            }
        }
    }
}

/// A bot prepared for a match remembers the match and nothing of earlier ones.
pub proof fn law_prepared(bot: Bot, args: StartMatchArgs)
    requires
        bot.is_prepared_for(args),
    ensures
        bot.config == Some(args.config),
        bot.map_walls@ == args.state.walls@,
        bot.my_player_id == args.your_player_id,
        bot.phase == Phase::Rally,
        bot.known_enemy_ids@.len() == 0,
        bot.hunt_target_id is None,
        bot.focus_target_id is None,
        ({
            let map = arena(args.state.walls@, args.config.width, args.config.height);
            let centre = rally_centre(args);
            &&& (bot.rally_x as int, bot.rally_y as int) == rally_point(centre, map)
            &&& (bot.attack_x as int, bot.attack_y as int) == attack_point(args)
        }),
{
}

/// The bot plays its turns on the map and around the rally point of its match,
/// for its own player, from what it remembers and what the turn shows.
pub proof fn law_turns_belong_to_the_match(bot: Bot, args: StartTurnArgs)
    requires
        bot.config is Some,
    ensures
        ({
            let s = bot.situation_in(args);
            let mine = own_heroes(args.state.heroes@, bot.my_player_id);
            &&& s.map.walls == bot.map_walls@
            &&& s.map.width == bot.config->0.width
            &&& s.map.height == bot.config->0.height
            &&& s.rally == (bot.rally_x as int, bot.rally_y as int)
            &&& s.turn == args.turn
            &&& s == situation(
                bot.my_player_id,
                arena(bot.map_walls@, bot.config->0.width, bot.config->0.height),
                bot.phase,
                bot.known_enemy_ids@,
                bot.focus_target_id,
                (bot.rally_x as int, bot.rally_y as int),
                args.turn as int,
                args.state.heroes@,
            )
            &&& bot.turn_texts(args).len() == mine.len()
            &&& forall|i: int|
                0 <= i < mine.len() ==> #[trigger] bot.turn_texts(args)[i] == text_of(
                    OrderModel { hero_id: mine[i].id as int, intent: hero_intent(mine[i], s) },
                )
        }),
{
}

/// A turn changes what the bot remembers of the enemies and the phase, by the
/// turn alone, and leaves the match as it is.
pub proof fn law_turns_keep_the_match(bot: Bot, before: Bot, args: StartTurnArgs)
    requires
        bot.has_played(before, args),
    ensures
        bot.config == before.config,
        bot.map_walls == before.map_walls,
        bot.my_player_id == before.my_player_id,
        (bot.rally_x, bot.rally_y) == (before.rally_x, before.rally_y),
        (bot.attack_x, bot.attack_y) == (before.attack_x, before.attack_y),
        bot.phase == before.situation_in(args).phase,
        bot.focus_target_id == before.situation_in(args).focus,
        bot.known_enemy_ids@ == known_after(
            before.known_enemy_ids@,
            foes(args.state.heroes@, before.my_player_id),
        ),
        bot.hunt_target_id == hunt_after(
            before.hunt_target_id,
            phase_entered(before.phase, args.turn as int),
            foes(args.state.heroes@, before.my_player_id),
            bot.known_enemy_ids@,
        ),
{
}

} // verus!
