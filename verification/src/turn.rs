//! One turn of a match: what the bot learns from it and what it orders.
use crate::grid::{arena, king_distance, snap, snap_to_grid, snapped_point, wide_dist, Arena};
use crate::json::{json_text, Json};
use crate::message::{envelope, order_args, order_text};
use crate::protocol::{GameConfig, Hero, StartTurnArgs, Wall};
use crate::route::{advance, bfs_next_step, law_step_is_open, next_step, step_towards};
use crate::sight::{has_line_of_sight, sees};
use crate::tactics::{
    choose_tactical_action, has_sight, law_shoots_exactly_when_able, move_to, position,
    separation, tactical_intent, Intent, TacticalAction, TOO_CLOSE_DIST,
};
use crate::targets::{all_heroes_near, half, near};
use vstd::prelude::*;

verus! {

/// What the bot is up to.
#[derive(Debug, Clone, PartialEq, Eq, Structural)]
pub enum Phase {
    /// The heroes gather at the rally point.
    Rally,
    /// They look for enemies together.
    Attack,
    /// One enemy is gone; they go after the next.
    Hunt,
    /// From `ENDGAME_TURN` on, the heroes head for the centre of the map, where
    /// they see most: a match that runs out of time goes to whoever sees more.
    /// They still shoot if they can, and retreat from an enemy too close.
    Endgame,
}

/// The turn from which on the bot plays the endgame: ten turns before the
/// usual end of a match.
pub const ENDGAME_TURN: i32 = 190;

/// How near the rally point a hero has to be to count as gathered.
pub const RALLY_RADIUS: i32 = 9;

/// An order to one hero.
#[derive(Debug, Clone)]
pub struct Order {
    pub hero_id: i32,
    pub action: TacticalAction,
}

/// An order as contracts speak of it.
pub struct OrderModel {
    pub hero_id: int,
    pub intent: Intent,
}

impl View for Order {
    type V = OrderModel;

    open spec fn view(&self) -> OrderModel {
        OrderModel { hero_id: self.hero_id as int, intent: self.action@ }
    }
}

/// The heroes of a player, in the order in which the server lists them.
pub open spec fn own_heroes(heroes: Seq<Hero>, player: i32) -> Seq<Hero> {
    heroes.filter(|h: Hero| h.owner_id == player)
}

/// The heroes of everyone else, in the order in which the server lists them.
pub open spec fn foes(heroes: Seq<Hero>, player: i32) -> Seq<Hero> {
    heroes.filter(|h: Hero| h.owner_id != player)
}

/// The ids of the heroes.
pub open spec fn ids(heroes: Seq<Hero>) -> Seq<i32> {
    heroes.map_values(|h: Hero| h.id)
}

/// The id of the first of the heroes.
pub open spec fn first_id(heroes: Seq<Hero>) -> Option<i32> {
    if heroes.len() == 0 {
        None
    } else {
        Some(heroes[0].id)
    }
}

/// The ids known once these enemies have been seen: new ones go to the end.
pub open spec fn known_after(known: Seq<i32>, enemies: Seq<Hero>) -> Seq<i32>
    decreases enemies.len(),
{
    if enemies.len() == 0 {
        known
    } else {
        let before = known_after(known, enemies.drop_last());
        if before.contains(enemies.last().id) {
            before
        } else {
            before.push(enemies.last().id)
        }
    }
}

/// The id of the first enemy that the hero sees.
pub open spec fn first_seen_by(hero: Hero, enemies: Seq<Hero>, walls: Seq<Wall>) -> Option<i32>
    decreases enemies.len(),
{
    if enemies.len() == 0 {
        None
    } else if has_sight(hero, enemies[0], walls) {
        Some(enemies[0].id)
    } else {
        first_seen_by(hero, enemies.drop_first(), walls)
    }
}

/// The id of the first enemy seen by the first hero that sees one.
pub open spec fn first_seen(mine: Seq<Hero>, enemies: Seq<Hero>, walls: Seq<Wall>) -> Option<i32>
    decreases mine.len(),
{
    if mine.len() == 0 {
        None
    } else {
        match first_seen_by(mine[0], enemies, walls) {
            Some(id) => Some(id),
            None => first_seen(mine.drop_first(), enemies, walls),
        }
    }
}

/// The enemy to shoot at together: the same as before while it is there,
/// otherwise the first one seen.
pub open spec fn focus_after(
    focus: Option<i32>,
    mine: Seq<Hero>,
    enemies: Seq<Hero>,
    walls: Seq<Wall>,
) -> Option<i32> {
    if focus is Some && ids(enemies).contains(focus->0) {
        focus
    } else {
        first_seen(mine, enemies, walls)
    }
}

/// The phase at the beginning of a turn: the endgame begins whatever the phase
/// was.
pub open spec fn phase_entered(phase: Phase, turn: int) -> Phase {
    if turn >= ENDGAME_TURN {
        Phase::Endgame
    } else {
        phase
    }
}

/// One of the enemies known is not there any more.
pub open spec fn one_is_missing(known: Seq<i32>, enemies: Seq<Hero>) -> bool {
    exists|i: int| 0 <= i < known.len() && !ids(enemies).contains(#[trigger] known[i])
}

/// All the heroes have gathered.
pub open spec fn gathered(mine: Seq<Hero>, rally: (int, int)) -> bool {
    forall|i: int|
        0 <= i < mine.len() ==> near(#[trigger] mine[i], rally.0, rally.1, RALLY_RADIUS as int)
}

/// The phase in which the bot plays a turn that it entered in `phase`.
pub open spec fn phase_after(
    phase: Phase,
    mine: Seq<Hero>,
    enemies: Seq<Hero>,
    known: Seq<i32>,
    rally: (int, int),
) -> Phase {
    match phase {
        Phase::Rally => if gathered(mine, rally) {
            Phase::Attack
        } else {
            Phase::Rally
        },
        Phase::Attack => if one_is_missing(known, enemies) {
            Phase::Hunt
        } else {
            Phase::Attack
        },
        Phase::Hunt => Phase::Hunt,
        Phase::Endgame => Phase::Endgame,
    }
}

/// The enemy hunted in a turn entered in `phase`: the first one there, when
/// the hunt begins and whenever the one hunted is gone.
pub open spec fn hunt_after(
    hunt: Option<i32>,
    phase: Phase,
    enemies: Seq<Hero>,
    known: Seq<i32>,
) -> Option<i32> {
    match phase {
        Phase::Attack if one_is_missing(known, enemies) => first_id(enemies),
        Phase::Hunt if hunt is Some && !ids(enemies).contains(hunt->0) => first_id(enemies),
        _ => hunt,
    }
}

/// Where a hero heads for when there is no enemy. On the attack and on the
/// hunt the heroes patrol in a cycle of fifteen turns: five to the centre, five
/// to the left edge, five to the rally point.
pub open spec fn patrol_target(
    phase: Phase,
    turn: int,
    hero: Hero,
    rally: (int, int),
    map: Arena,
) -> (int, int) {
    let centre = snapped_point((half(map.width), half(map.height)));
    match phase {
        Phase::Rally => rally,
        Phase::Endgame => centre,
        _ => if turn < 0 || turn % 15 < 5 {
            centre
        } else if turn % 15 < 10 {
            snapped_point((1, hero.y as int))
        } else {
            rally
        },
    }
}

/// The square of the distance as the crow flies.
pub open spec fn crow_distance(a: Hero, b: Hero) -> int {
    (a.x - b.x) * (a.x - b.x) + (a.y - b.y) * (a.y - b.y)
}

/// The enemy at that index is nearest to the hero, and the first that is.
pub open spec fn is_nearest(hero: Hero, enemies: Seq<Hero>, i: int) -> bool {
    &&& 0 <= i < enemies.len()
    &&& forall|j: int|
        0 <= j < enemies.len() ==> crow_distance(hero, enemies[i]) <= crow_distance(
            hero,
            #[trigger] enemies[j],
        )
    &&& forall|j: int|
        0 <= j < i ==> crow_distance(hero, enemies[i]) < crow_distance(
            hero,
            #[trigger] enemies[j],
        )
}

/// The enemy at that index is the first of that id.
pub open spec fn is_first_with(enemies: Seq<Hero>, id: i32, i: int) -> bool {
    &&& 0 <= i < enemies.len()
    &&& enemies[i].id == id
    &&& forall|j: int| 0 <= j < i ==> (#[trigger] enemies[j]).id != id
}

/// The hero sees an enemy of that id.
pub open spec fn sees_id(hero: Hero, enemies: Seq<Hero>, id: i32, walls: Seq<Wall>) -> bool {
    exists|i: int|
        0 <= i < enemies.len() && (#[trigger] enemies[i]).id == id && has_sight(
            hero,
            enemies[i],
            walls,
        )
}

/// The enemies that the hero sees, in their order.
pub open spec fn in_sight(hero: Hero, enemies: Seq<Hero>, walls: Seq<Wall>) -> Seq<Hero> {
    enemies.filter(|e: Hero| has_sight(hero, e, walls))
}

/// The enemy nearest to the hero, and the first of those equally near.
pub open spec fn nearest(hero: Hero, enemies: Seq<Hero>) -> Hero {
    enemies[choose|i: int| is_nearest(hero, enemies, i)]
}

/// The enemy a hero deals with: the one to shoot at together, if the hero
/// sees it, otherwise the nearest of those it sees, and if it sees none, the
/// nearest of all.
pub open spec fn opponent(
    hero: Hero,
    enemies: Seq<Hero>,
    focus: Option<i32>,
    walls: Seq<Wall>,
) -> Option<Hero> {
    if focus is Some && sees_id(hero, enemies, focus->0, walls) {
        Some(enemies[choose|i: int| is_first_with(enemies, focus->0, i)])
    } else if in_sight(hero, enemies, walls).len() > 0 {
        Some(nearest(hero, in_sight(hero, enemies, walls)))
    } else if enemies.len() > 0 {
        Some(nearest(hero, enemies))
    } else {
        None
    }
}

/// What a turn looks like once the bot has made up its mind about the phase
/// and the common target.
pub struct Situation {
    pub phase: Phase,
    pub turn: int,
    pub enemies: Seq<Hero>,
    pub focus: Option<i32>,
    pub rally: (int, int),
    pub map: Arena,
}

/// What a hero is ordered to do. A shot is ordered as chosen; of a move, the
/// next step of the way. In the endgame, a hero that moves and is not too close
/// to an enemy goes to the centre instead.
pub open spec fn hero_intent(hero: Hero, s: Situation) -> Intent {
    let step = |to: (int, int)| next_step(position(hero), snapped_point(to), s.map);
    if s.phase == Phase::Rally {
        move_to(step(s.rally), "🏃rally"@)
    } else {
        match opponent(hero, s.enemies, s.focus, s.map.walls) {
            None => move_to(
                step(patrol_target(s.phase, s.turn, hero, s.rally, s.map)),
                "🏃noenemies"@,
            ),
            Some(enemy) => {
                let intent = tactical_intent(hero, enemy, s.map);
                if intent.shoots {
                    intent
                } else if s.phase == Phase::Endgame && separation(hero, enemy) >= TOO_CLOSE_DIST {
                    move_to(
                        step(patrol_target(s.phase, s.turn, hero, s.rally, s.map)),
                        intent.comment,
                    )
                } else {
                    move_to(step(intent.at), intent.comment)
                }
            },
        }
    }
}

/// One order for each of the heroes, in their order.
pub open spec fn orders_for(mine: Seq<Hero>, s: Situation) -> Seq<OrderModel> {
    mine.map_values(
        |h: Hero| OrderModel { hero_id: h.id as int, intent: hero_intent(h, s) },
    )
}

/// The situation in which a turn is played.
pub open spec fn situation(
    player: i32,
    map: Arena,
    phase: Phase,
    known: Seq<i32>,
    focus: Option<i32>,
    rally: (int, int),
    turn: int,
    heroes: Seq<Hero>,
) -> Situation {
    let mine = own_heroes(heroes, player);
    let enemies = foes(heroes, player);
    Situation {
        phase: phase_after(
            phase_entered(phase, turn),
            mine,
            enemies,
            known_after(known, enemies),
            rally,
        ),
        turn,
        enemies,
        focus: focus_after(focus, mine, enemies, map.walls),
        rally,
        map,
    }
}

/// The text of an order.
pub open spec fn text_of(order: OrderModel) -> Seq<char> {
    json_text(
        envelope(
            if order.intent.shoots {
                "SHOOT"@
            } else {
                "MOVE"@
            },
            order_args(order.hero_id, order.intent.at.0, order.intent.at.1, order.intent.comment),
        ),
    )
}

/// Filtering one element more.
proof fn lemma_filter_next(heroes: Seq<Hero>, keep: spec_fn(Hero) -> bool, n: int)
    requires
        0 <= n < heroes.len(),
    ensures
        heroes.take(n + 1).filter(keep) == (if keep(heroes[n]) {
            heroes.take(n).filter(keep).push(heroes[n])
        } else {
            heroes.take(n).filter(keep)
        }),
{
    assert(heroes.take(n + 1).drop_last() =~= heroes.take(n));
    reveal(Seq::filter);
}

/// The heroes of a player.
fn select_own(heroes: &Vec<Hero>, player: i32) -> (mine: Vec<&Hero>)
    ensures
        mine@.unref() == own_heroes(heroes@, player),
{
    let mut mine: Vec<&Hero> = Vec::new();
    let ghost keep = |h: Hero| h.owner_id == player;
    proof {
        reveal(Seq::filter);
        assert(mine@.unref() =~= heroes@.take(0).filter(keep));
    }
    for i in 0..heroes.len()
        invariant
            keep == (|h: Hero| h.owner_id == player),
            mine@.unref() == heroes@.take(i as int).filter(keep),
    {
        let ghost before = mine@;
        proof {
            lemma_filter_next(heroes@, keep, i as int);
        }
        if heroes[i].owner_id == player {
            mine.push(&heroes[i]);
            assert(mine@.unref() =~= before.unref().push(heroes@[i as int]));
        }
    }
    assert(heroes@.take(heroes@.len() as int) =~= heroes@);
    mine
}

/// The heroes of everyone else.
fn select_foes(heroes: &Vec<Hero>, player: i32) -> (enemies: Vec<&Hero>)
    ensures
        enemies@.unref() == foes(heroes@, player),
{
    let mut enemies: Vec<&Hero> = Vec::new();
    let ghost keep = |h: Hero| h.owner_id != player;
    proof {
        reveal(Seq::filter);
        assert(enemies@.unref() =~= heroes@.take(0).filter(keep));
    }
    for i in 0..heroes.len()
        invariant
            keep == (|h: Hero| h.owner_id != player),
            enemies@.unref() == heroes@.take(i as int).filter(keep),
    {
        let ghost before = enemies@;
        proof {
            lemma_filter_next(heroes@, keep, i as int);
        }
        if heroes[i].owner_id != player {
            enemies.push(&heroes[i]);
            assert(enemies@.unref() =~= before.unref().push(heroes@[i as int]));
        }
    }
    assert(heroes@.take(heroes@.len() as int) =~= heroes@);
    enemies
}

/// Whether an id is in the list.
fn lists(known: &Vec<i32>, id: i32) -> (r: bool)
    ensures
        r == known@.contains(id),
{
    for i in 0..known.len()
        invariant
            forall|j: int| 0 <= j < i ==> known@[j] != id,
    {
        if known[i] == id {
            return true;
        }
    }
    false
}

/// Whether one of the heroes has that id.
fn is_there(enemies: &Vec<&Hero>, id: i32) -> (r: bool)
    ensures
        r == ids(enemies@.unref()).contains(id),
{
    for i in 0..enemies.len()
        invariant
            forall|j: int| 0 <= j < i ==> ids(enemies@.unref())[j] != id,
    {
        if enemies[i].id == id {
            assert(ids(enemies@.unref())[i as int] == id);
            return true;
        }
    }
    false
}

/// Adds the ids of new enemies to the list of those known.
fn note_enemies(known: &mut Vec<i32>, enemies: &Vec<&Hero>)
    ensures
        final(known)@ == known_after(old(known)@, enemies@.unref()),
{
    let ghost before = known@;
    let ghost all = enemies@.unref();
    assert(all.take(0) =~= Seq::empty());
    for i in 0..enemies.len()
        invariant
            all == enemies@.unref(),
            known@ == known_after(before, all.take(i as int)),
    {
        assert(all.take(i + 1).drop_last() =~= all.take(i as int));
        assert(all.take(i + 1).last() == all[i as int]);
        if !lists(known, enemies[i].id) {
            known.push(enemies[i].id);
        }
    }
    assert(all.take(all.len() as int) =~= all);
}

/// Where no enemy before index `n` is seen, the first one seen is that one, if
/// it is.
proof fn lemma_first_seen_by(hero: Hero, enemies: Seq<Hero>, walls: Seq<Wall>, n: int)
    requires
        0 <= n <= enemies.len(),
        forall|i: int| 0 <= i < n ==> !has_sight(hero, #[trigger] enemies[i], walls),
    ensures
        n < enemies.len() && has_sight(hero, enemies[n], walls) ==> first_seen_by(
            hero,
            enemies,
            walls,
        ) == Some(enemies[n].id),
        n == enemies.len() ==> first_seen_by(hero, enemies, walls) is None,
    decreases n,
{
    if n > 0 {
        let rest = enemies.drop_first();
        assert(!has_sight(hero, enemies[0], walls));
        assert forall|i: int| 0 <= i < n - 1 implies !has_sight(hero, #[trigger] rest[i], walls) by {
            assert(rest[i] == enemies[i + 1]);
        }
        lemma_first_seen_by(hero, rest, walls, n - 1);
    }
}

/// The same of heroes that see no one.
proof fn lemma_first_seen(mine: Seq<Hero>, enemies: Seq<Hero>, walls: Seq<Wall>, n: int)
    requires
        0 <= n <= mine.len(),
        forall|i: int| 0 <= i < n ==> first_seen_by(#[trigger] mine[i], enemies, walls) is None,
    ensures
        n < mine.len() && first_seen_by(mine[n], enemies, walls) is Some ==> first_seen(
            mine,
            enemies,
            walls,
        ) == first_seen_by(mine[n], enemies, walls),
        n == mine.len() ==> first_seen(mine, enemies, walls) is None,
    decreases n,
{
    if n > 0 {
        let rest = mine.drop_first();
        assert(first_seen_by(mine[0], enemies, walls) is None);
        assert forall|i: int| 0 <= i < n - 1 implies first_seen_by(
            #[trigger] rest[i],
            enemies,
            walls,
        ) is None by {
            assert(rest[i] == mine[i + 1]);
        }
        lemma_first_seen(rest, enemies, walls, n - 1);
    }
}

/// The id of the first enemy seen by the first hero that sees one.
fn find_seen(mine: &Vec<&Hero>, enemies: &Vec<&Hero>, walls: &[Wall]) -> (id: Option<i32>)
    ensures
        id == first_seen(mine@.unref(), enemies@.unref(), walls@),
{
    let ghost own = mine@.unref();
    let ghost others = enemies@.unref();
    for m in 0..mine.len()
        invariant
            own == mine@.unref(),
            others == enemies@.unref(),
            forall|i: int| 0 <= i < m ==> first_seen_by(#[trigger] own[i], others, walls@) is None,
    {
        let hero: &Hero = mine[m];
        assert(own[m as int] == *hero);
        for e in 0..enemies.len()
            invariant
                own == mine@.unref(),
                others == enemies@.unref(),
                0 <= m < own.len(),
                own[m as int] == *hero,
                forall|i: int| 0 <= i < m ==> first_seen_by(#[trigger] own[i], others, walls@) is None,
                forall|i: int| 0 <= i < e ==> !has_sight(*hero, #[trigger] others[i], walls@),
        {
            let enemy: &Hero = enemies[e];
            assert(others[e as int] == *enemy);
            if has_line_of_sight(hero.x, hero.y, enemy.x, enemy.y, walls) {
                proof {
                    lemma_first_seen_by(*hero, others, walls@, e as int);
                    lemma_first_seen(own, others, walls@, m as int);
                }
                return Some(enemy.id);
            }
        }
        proof {
            lemma_first_seen_by(*hero, others, walls@, others.len() as int);
        }
    }
    proof {
        lemma_first_seen(own, others, walls@, own.len() as int);
    }
    None
}

/// Keeps the common target while it is there, and otherwise looks for one.
fn update_focus(
    focus_target_id: &mut Option<i32>,
    mine: &Vec<&Hero>,
    enemies: &Vec<&Hero>,
    walls: &[Wall],
)
    ensures
        *final(focus_target_id) == focus_after(
            *old(focus_target_id),
            mine@.unref(),
            enemies@.unref(),
            walls@,
        ),
{
    if let Some(fid) = *focus_target_id {
        if !is_there(enemies, fid) {
            *focus_target_id = None;
        }
    }
    if focus_target_id.is_none() {
        *focus_target_id = find_seen(mine, enemies, walls);
    }
}

/// Whether one of the enemies known is not there any more.
fn any_missing(known: &Vec<i32>, enemies: &Vec<&Hero>) -> (r: bool)
    ensures
        r == one_is_missing(known@, enemies@.unref()),
{
    for i in 0..known.len()
        invariant
            forall|j: int| 0 <= j < i ==> ids(enemies@.unref()).contains(#[trigger] known@[j]),
    {
        if !is_there(enemies, known[i]) {
            assert(!ids(enemies@.unref()).contains(known@[i as int]));
            return true;
        }
    }
    false
}

/// The id of the first of the enemies.
fn head_id(enemies: &Vec<&Hero>) -> (id: Option<i32>)
    ensures
        id == first_id(enemies@.unref()),
{
    if enemies.len() > 0 {
        Some(enemies[0].id)
    } else {
        None
    }
}

/// Moves on to the phase in which the turn is played, and to the enemy hunted
/// in it.
fn update_phase(
    phase: &mut Phase,
    hunt_target_id: &mut Option<i32>,
    mine: &Vec<&Hero>,
    enemies: &Vec<&Hero>,
    known: &Vec<i32>,
    rally_x: i32,
    rally_y: i32,
    turn: i32,
)
    ensures
        *final(phase) == phase_after(
            phase_entered(*old(phase), turn as int),
            mine@.unref(),
            enemies@.unref(),
            known@,
            (rally_x as int, rally_y as int),
        ),
        *final(hunt_target_id) == hunt_after(
            *old(hunt_target_id),
            phase_entered(*old(phase), turn as int),
            enemies@.unref(),
            known@,
        ),
{
    if turn >= ENDGAME_TURN && *phase != Phase::Endgame {
        *phase = Phase::Endgame;
    }
    match *phase {
        Phase::Rally => {
            let near_rally: bool = all_heroes_near(
                mine.as_slice(),
                rally_x,
                rally_y,
                RALLY_RADIUS,
            );
            proof {
                let own = mine@.unref();
                let rally = (rally_x as int, rally_y as int);
                if near_rally {
                    assert(gathered(own, rally)) by {
                        assert forall|i: int| 0 <= i < own.len() implies near(
                            #[trigger] own[i],
                            rally.0,
                            rally.1,
                            RALLY_RADIUS as int,
                        ) by {
                            assert(own[i] == *mine@[i]);
                        }
                    }
                } else {
                    let i = choose|i: int|
                        0 <= i < mine@.len() && !near(
                            *(#[trigger] mine@[i]),
                            rally.0,
                            rally.1,
                            RALLY_RADIUS as int,
                        );
                    assert(own[i] == *mine@[i]);
                }
            }
            if near_rally {
                *phase = Phase::Attack;
            }
        },
        Phase::Attack => {
            if any_missing(known, enemies) {
                *hunt_target_id = head_id(enemies);
                *phase = Phase::Hunt;
            }
        },
        Phase::Hunt => {
            if let Some(tid) = *hunt_target_id {
                if !is_there(enemies, tid) {
                    *hunt_target_id = head_id(enemies);
                }
            }
        },
        Phase::Endgame => {},
    }
}

/// Where a hero heads for when there is no enemy.
fn patrol_point(
    phase: &Phase,
    turn: i32,
    hero: &Hero,
    rally_x: i32,
    rally_y: i32,
    map_w: i32,
    map_h: i32,
    Ghost(map): Ghost<Arena>,
) -> (p: (i64, i64))
    requires
        map.width == map_w,
        map.height == map_h,
    ensures
        (p.0 as int, p.1 as int) == patrol_target(
            *phase,
            turn as int,
            *hero,
            (rally_x as int, rally_y as int),
            map,
        ),
        -0x8000_0001 <= p.0 <= 0x8000_0000,
        -0x8000_0001 <= p.1 <= 0x8000_0000,
{
    let (center_x, center_y) = snap_to_grid(map_w / 2, map_h / 2);
    match *phase {
        Phase::Rally => (rally_x as i64, rally_y as i64),
        Phase::Endgame => (center_x as i64, center_y as i64),
        Phase::Attack | Phase::Hunt => {
            let cycle: i32 = turn % 15;
            if cycle < 5 {
                (center_x as i64, center_y as i64)
            } else if cycle < 10 {
                (snap(1), snap(hero.y as i64))
            } else {
                (rally_x as i64, rally_y as i64)
            }
        },
    }
}

/// The square of the distance as the crow flies.
fn squared_distance(a: &Hero, b: &Hero) -> (d: i128)
    ensures
        d == crow_distance(*a, *b),
{
    let dx: i128 = a.x as i128 - b.x as i128;
    let dy: i128 = a.y as i128 - b.y as i128;
    assert(0 <= dx * dx <= 0x1_0000_0000 * 0x1_0000_0000) by (nonlinear_arith)
        requires
            -0x1_0000_0000 <= dx <= 0x1_0000_0000,
    ;
    assert(0 <= dy * dy <= 0x1_0000_0000 * 0x1_0000_0000) by (nonlinear_arith)
        requires
            -0x1_0000_0000 <= dy <= 0x1_0000_0000,
    ;
    dx * dx + dy * dy
}

/// Whether the hero sees an enemy of that id.
fn has_id_in_sight(hero: &Hero, enemies: &Vec<&Hero>, id: i32, walls: &[Wall]) -> (r: bool)
    ensures
        r == sees_id(*hero, enemies@.unref(), id, walls@),
{
    let ghost all = enemies@.unref();
    for i in 0..enemies.len()
        invariant
            all == enemies@.unref(),
            forall|j: int|
                0 <= j < i ==> !((#[trigger] all[j]).id == id && has_sight(*hero, all[j], walls@)),
    {
        let e: &Hero = enemies[i];
        assert(all[i as int] == *e);
        if e.id == id && has_line_of_sight(hero.x, hero.y, e.x, e.y, walls) {
            return true;
        }
    }
    false
}

/// The first enemy of that id.
fn find_id<'a>(enemies: &Vec<&'a Hero>, id: i32) -> (found: Option<&'a Hero>)
    ensures
        found is Some <==> exists|i: int| is_first_with(enemies@.unref(), id, i),
        found is Some ==> *found->0 == enemies@.unref()[choose|i: int|
            is_first_with(enemies@.unref(), id, i)],
{
    let ghost all = enemies@.unref();
    for i in 0..enemies.len()
        invariant
            all == enemies@.unref(),
            forall|j: int| 0 <= j < i ==> (#[trigger] all[j]).id != id,
    {
        let e: &'a Hero = enemies[i];
        assert(all[i as int] == *e);
        if e.id == id {
            proof {
                assert(is_first_with(all, id, i as int));
                let c = choose|c: int| is_first_with(all, id, c);
                assert(is_first_with(all, id, c));
                if c < i {
                    assert(all[c].id != id);
                } else if i < c {
                    assert(all[i as int].id != id);
                }
            }
            return Some(e);
        }
    }
    None
}

/// The nearest enemy, and the first of those equally near.
fn find_nearest<'a>(hero: &Hero, enemies: &Vec<&'a Hero>) -> (found: Option<&'a Hero>)
    ensures
        found is None <==> enemies@.len() == 0,
        found is Some ==> *found->0 == nearest(*hero, enemies@.unref()),
{
    if enemies.len() == 0 {
        return None;
    }
    let ghost all = enemies@.unref();
    let mut best: usize = 0;
    let mut best_distance: i128 = squared_distance(hero, enemies[0]);
    assert(all[0] == *enemies@[0]);
    for i in 1..enemies.len()
        invariant
            all == enemies@.unref(),
            0 <= best < i <= enemies@.len(),
            best_distance == crow_distance(*hero, all[best as int]),
            forall|j: int|
                0 <= j < i ==> best_distance <= crow_distance(*hero, #[trigger] all[j]),
            forall|j: int|
                0 <= j < best ==> best_distance < crow_distance(*hero, #[trigger] all[j]),
    {
        let distance: i128 = squared_distance(hero, enemies[i]);
        assert(all[i as int] == *enemies@[i as int]);
        if distance < best_distance {
            best = i;
            best_distance = distance;
        }
    }
    proof {
        assert(is_nearest(*hero, all, best as int));
        let c = choose|c: int| is_nearest(*hero, all, c);
        assert(is_nearest(*hero, all, c));
        if c < best {
            assert(crow_distance(*hero, all[c]) <= crow_distance(*hero, all[best as int]));
        } else if best < c {
            assert(crow_distance(*hero, all[best as int]) <= crow_distance(*hero, all[c]));
        }
        assert(all[best as int] == *enemies@[best as int]);
    }
    Some(enemies[best])
}

/// The enemies that the hero sees.
fn select_seen<'a>(hero: &Hero, enemies: &Vec<&'a Hero>, walls: &[Wall]) -> (seen: Vec<&'a Hero>)
    ensures
        seen@.unref() == in_sight(*hero, enemies@.unref(), walls@),
{
    let mut seen: Vec<&'a Hero> = Vec::new();
    let ghost all = enemies@.unref();
    let ghost keep = |e: Hero| has_sight(*hero, e, walls@);
    proof {
        reveal(Seq::filter);
        assert(seen@.unref() =~= all.take(0).filter(keep));
    }
    for i in 0..enemies.len()
        invariant
            all == enemies@.unref(),
            keep == (|e: Hero| has_sight(*hero, e, walls@)),
            seen@.unref() == all.take(i as int).filter(keep),
    {
        let ghost before = seen@;
        proof {
            lemma_filter_next(all, keep, i as int);
        }
        let e: &'a Hero = enemies[i];
        assert(all[i as int] == *e);
        if has_line_of_sight(hero.x, hero.y, e.x, e.y, walls) {
            seen.push(e);
            assert(seen@.unref() =~= before.unref().push(*e));
        }
    }
    assert(all.take(all.len() as int) =~= all);
    seen
}

/// The enemy a hero deals with.
fn find_opponent<'a>(
    hero: &Hero,
    enemies: &Vec<&'a Hero>,
    focus: Option<i32>,
    walls: &[Wall],
) -> (found: Option<&'a Hero>)
    ensures
        found is Some <==> opponent(*hero, enemies@.unref(), focus, walls@) is Some,
        found is Some ==> Some(*found->0) == opponent(*hero, enemies@.unref(), focus, walls@),
{
    if let Some(fid) = focus {
        if has_id_in_sight(hero, enemies, fid, walls) {
            let found = find_id(enemies, fid);
            proof {
                let all = enemies@.unref();
                let i = choose|i: int|
                    0 <= i < all.len() && (#[trigger] all[i]).id == fid && has_sight(
                        *hero,
                        all[i],
                        walls@,
                    );
                lemma_first_with(all, fid, i);
            }
            return found;
        }
    }
    let seen = select_seen(hero, enemies, walls);
    if seen.len() > 0 {
        find_nearest(hero, &seen)
    } else {
        find_nearest(hero, enemies)
    }
}

/// Where an enemy of that id exists, a first one does.
proof fn lemma_first_with(enemies: Seq<Hero>, id: i32, i: int)
    requires
        0 <= i < enemies.len(),
        enemies[i].id == id,
    ensures
        exists|k: int| is_first_with(enemies, id, k),
    decreases i,
{
    if !is_first_with(enemies, id, i) {
        let j = choose|j: int| 0 <= j < i && (#[trigger] enemies[j]).id == id;
        lemma_first_with(enemies, id, j);
    }
}

/// The order for one hero.
fn order_for(
    hero: &Hero,
    phase: &Phase,
    turn: i32,
    enemies: &Vec<&Hero>,
    focus: Option<i32>,
    rally_x: i32,
    rally_y: i32,
    walls: &[Wall],
    map_w: i32,
    map_h: i32,
    Ghost(s): Ghost<Situation>,
) -> (order: Order)
    requires
        s == (Situation {
            phase: *phase,
            turn: turn as int,
            enemies: enemies@.unref(),
            focus,
            rally: (rally_x as int, rally_y as int),
            map: arena(walls@, map_w, map_h),
        }),
    ensures
        order@ == (OrderModel { hero_id: hero.id as int, intent: hero_intent(*hero, s) }),
{
    if *phase == Phase::Rally {
        let (mx, my) = bfs_next_step(hero.x, hero.y, rally_x, rally_y, walls, map_w, map_h);
        return Order {
            hero_id: hero.id,
            action: TacticalAction::Move { dest_x: mx, dest_y: my, comment: "🏃rally" },
        };
    }
    let (px, py) = patrol_point(
        phase,
        turn,
        hero,
        rally_x,
        rally_y,
        map_w,
        map_h,
        Ghost(s.map),
    );
    match find_opponent(hero, enemies, focus, walls) {
        None => {
            let (mx, my) = step_towards(hero.x, hero.y, px, py, walls, map_w, map_h);
            Order {
                hero_id: hero.id,
                action: TacticalAction::Move { dest_x: mx, dest_y: my, comment: "🏃noenemies" },
            }
        },
        Some(enemy) => {
            let action = choose_tactical_action(
                hero,
                enemy,
                walls,
                map_w,
                map_h,
                (px as i32, py as i32),
            );
            match action {
                TacticalAction::Shoot { target_x, target_y, comment } => Order {
                    hero_id: hero.id,
                    action: TacticalAction::Shoot { target_x, target_y, comment },
                },
                TacticalAction::Move { dest_x, dest_y, comment } => {
                    let to_centre: bool = *phase == Phase::Endgame && wide_dist(
                        hero.x,
                        hero.y,
                        enemy.x,
                        enemy.y,
                    ) >= TOO_CLOSE_DIST as i64;
                    let (mx, my) = if to_centre {
                        step_towards(hero.x, hero.y, px, py, walls, map_w, map_h)
                    } else {
                        bfs_next_step(hero.x, hero.y, dest_x, dest_y, walls, map_w, map_h)
                    };
                    Order {
                        hero_id: hero.id,
                        action: TacticalAction::Move { dest_x: mx, dest_y: my, comment },
                    }
                },
            }
        },
    }
}

/// The orders as contracts speak of them.
pub open spec fn order_models(orders: Seq<Order>) -> Seq<OrderModel> {
    orders.map_values(|o: Order| o@)
}

/// Plays a turn: takes note of the enemies shown, settles the common target
/// and the phase, and gives each of the player's heroes an order.
pub fn plan_turn(
    my_player_id: i32,
    config: &GameConfig,
    map_walls: &[Wall],
    phase: &mut Phase,
    known_enemy_ids: &mut Vec<i32>,
    hunt_target_id: &mut Option<i32>,
    focus_target_id: &mut Option<i32>,
    rally_x: i32,
    rally_y: i32,
    turn_args: &StartTurnArgs,
) -> (orders: Vec<Order>)
    ensures
        ({
            let heroes = turn_args.state.heroes@;
            let mine = own_heroes(heroes, my_player_id);
            let enemies = foes(heroes, my_player_id);
            let s = situation(
                my_player_id,
                arena(map_walls@, config.width, config.height),
                *old(phase),
                old(known_enemy_ids)@,
                *old(focus_target_id),
                (rally_x as int, rally_y as int),
                turn_args.turn as int,
                heroes,
            );
            &&& *final(phase) == s.phase
            &&& final(known_enemy_ids)@ == known_after(old(known_enemy_ids)@, enemies)
            &&& *final(hunt_target_id) == hunt_after(
                *old(hunt_target_id),
                phase_entered(*old(phase), turn_args.turn as int),
                enemies,
                final(known_enemy_ids)@,
            )
            &&& *final(focus_target_id) == s.focus
            &&& order_models(orders@) == orders_for(mine, s)
        }),
{
    let map_w: i32 = config.width;
    let map_h: i32 = config.height;
    let my_heroes: Vec<&Hero> = select_own(&turn_args.state.heroes, my_player_id);
    let enemy_heroes: Vec<&Hero> = select_foes(&turn_args.state.heroes, my_player_id);
    let ghost s = situation(
        my_player_id,
        arena(map_walls@, map_w, map_h),
        *phase,
        known_enemy_ids@,
        *focus_target_id,
        (rally_x as int, rally_y as int),
        turn_args.turn as int,
        turn_args.state.heroes@,
    );
    note_enemies(known_enemy_ids, &enemy_heroes);
    update_focus(focus_target_id, &my_heroes, &enemy_heroes, map_walls);
    update_phase(
        phase,
        hunt_target_id,
        &my_heroes,
        &enemy_heroes,
        known_enemy_ids,
        rally_x,
        rally_y,
        turn_args.turn,
    );
    let ghost mine = my_heroes@.unref();
    let mut orders: Vec<Order> = Vec::new();
    for i in 0..my_heroes.len()
        invariant
            mine == my_heroes@.unref(),
            s == (Situation {
                phase: *phase,
                turn: turn_args.turn as int,
                enemies: enemy_heroes@.unref(),
                focus: *focus_target_id,
                rally: (rally_x as int, rally_y as int),
                map: arena(map_walls@, map_w, map_h),
            }),
            orders@.len() == i,
            forall|j: int|
                0 <= j < i ==> (#[trigger] orders@[j])@ == (OrderModel {
                    hero_id: mine[j].id as int,
                    intent: hero_intent(mine[j], s),
                }),
    {
        assert(mine[i as int] == *my_heroes@[i as int]);
        let order: Order = order_for(
            my_heroes[i],
            phase,
            turn_args.turn,
            &enemy_heroes,
            *focus_target_id,
            rally_x,
            rally_y,
            map_walls,
            map_w,
            map_h,
            Ghost(s),
        );
        orders.push(order);
    }
    assert(order_models(orders@) =~= orders_for(mine, s));
    orders
}

/// The text of an order, ready to be sent.
pub fn order_message(order: &Order) -> (message: String)
    ensures
        message@ == text_of(order@),
{
    match &order.action {
        TacticalAction::Shoot { target_x, target_y, comment } => {
            order_text("SHOOT", order.hero_id, *target_x, *target_y, comment)
        },
        TacticalAction::Move { dest_x, dest_y, comment } => {
            order_text("MOVE", order.hero_id, *dest_x, *dest_y, comment)
        },
    }
}

/// What the messages say.
pub open spec fn texts(messages: Seq<String>) -> Seq<Seq<char>> {
    messages.map_values(|m: String| m@)
}

/// The texts of the orders, one for each.
pub open spec fn order_texts(orders: Seq<OrderModel>) -> Seq<Seq<char>> {
    orders.map_values(|o: OrderModel| text_of(o))
}

/// Plays a turn and returns the messages to send, one for each of the player's
/// heroes. The point of attack is not used yet.
pub fn process_turn(
    my_player_id: i32,
    config: &GameConfig,
    map_walls: &[Wall],
    phase: &mut Phase,
    known_enemy_ids: &mut Vec<i32>,
    hunt_target_id: &mut Option<i32>,
    focus_target_id: &mut Option<i32>,
    rally_x: i32,
    rally_y: i32,
    _attack_x: i32,
    _attack_y: i32,
    turn_args: &StartTurnArgs,
) -> (messages: Vec<String>)
    ensures
        ({
            let heroes = turn_args.state.heroes@;
            let mine = own_heroes(heroes, my_player_id);
            let enemies = foes(heroes, my_player_id);
            let s = situation(
                my_player_id,
                arena(map_walls@, config.width, config.height),
                *old(phase),
                old(known_enemy_ids)@,
                *old(focus_target_id),
                (rally_x as int, rally_y as int),
                turn_args.turn as int,
                heroes,
            );
            &&& *final(phase) == s.phase
            &&& final(known_enemy_ids)@ == known_after(old(known_enemy_ids)@, enemies)
            &&& *final(hunt_target_id) == hunt_after(
                *old(hunt_target_id),
                phase_entered(*old(phase), turn_args.turn as int),
                enemies,
                final(known_enemy_ids)@,
            )
            &&& *final(focus_target_id) == s.focus
            &&& texts(messages@) == order_texts(orders_for(mine, s))
        }),
{
    let orders: Vec<Order> = plan_turn(
        my_player_id,
        config,
        map_walls,
        phase,
        known_enemy_ids,
        hunt_target_id,
        focus_target_id,
        rally_x,
        rally_y,
        turn_args,
    );
    let mut messages: Vec<String> = Vec::new();
    for i in 0..orders.len()
        invariant
            messages@.len() == i,
            forall|j: int| 0 <= j < i ==> (#[trigger] messages@[j])@ == text_of(orders@[j]@),
    {
        messages.push(order_message(&orders[i]));
    }
    assert(texts(messages@) =~= order_texts(order_models(orders@)));
    messages
}

/// How far a match has come.
pub open spec fn rank(phase: Phase) -> int {
    match phase {
        Phase::Rally => 0,
        Phase::Attack => 1,
        Phase::Hunt => 2,
        Phase::Endgame => 3,
    }
}

/// A turn never takes the bot back to an earlier phase, and before the endgame
/// on by one phase at most.
pub proof fn law_phases_only_advance(
    player: i32,
    map: Arena,
    phase: Phase,
    known: Seq<i32>,
    focus: Option<i32>,
    rally: (int, int),
    turn: int,
    heroes: Seq<Hero>,
)
    ensures
        ({
            let after = situation(player, map, phase, known, focus, rally, turn, heroes).phase;
            &&& rank(after) >= rank(phase)
            &&& turn < ENDGAME_TURN ==> rank(after) <= rank(phase) + 1
        }),
{
}

/// The endgame begins at its turn in whatever phase the bot is, at no earlier
/// turn, and lasts to the end.
pub proof fn law_endgame_is_final(
    player: i32,
    map: Arena,
    phase: Phase,
    known: Seq<i32>,
    focus: Option<i32>,
    rally: (int, int),
    turn: int,
    heroes: Seq<Hero>,
)
    ensures
        situation(player, map, phase, known, focus, rally, turn, heroes).phase == Phase::Endgame
            <==> turn >= ENDGAME_TURN || phase == Phase::Endgame,
{
}

/// The bot forgets no enemy it has seen, learns of every enemy shown and of no
/// one else, and notes each only once.
pub proof fn law_known_enemies(known: Seq<i32>, enemies: Seq<Hero>)
    ensures
        known.is_prefix_of(known_after(known, enemies)),
        forall|id: i32| #[trigger]
            known_after(known, enemies).contains(id) <==> known.contains(id) || ids(
                enemies,
            ).contains(id),
        known.no_duplicates() ==> known_after(known, enemies).no_duplicates(),
    decreases enemies.len(),
{
    let all = ids(enemies);
    if enemies.len() == 0 {
        assert(known.is_prefix_of(known));
    } else {
        let rest = enemies.drop_last();
        let last = enemies.last().id;
        let before = known_after(known, rest);
        let after = known_after(known, enemies);
        law_known_enemies(known, rest);
        assert(all =~= ids(rest).push(last));
        assert forall|id: i32| #[trigger] after.contains(id) <==> known.contains(id) || all.contains(
            id,
        ) by {
            lemma_push_contains(ids(rest), last, id);
            lemma_push_contains(before, last, id);
            assert(before.contains(id) <==> known.contains(id) || ids(rest).contains(id));
        }
        if !before.contains(last) {
            assert(after == before.push(last));
            assert(known =~= after.subrange(0, known.len() as int)) by {
                assert(known =~= before.subrange(0, known.len() as int));
                assert forall|i: int| 0 <= i < known.len() implies known[i] == after[i] by {
                    assert(known[i] == before.subrange(0, known.len() as int)[i]);
                }
            }
        }
    }
}

/// What is in a sequence with one element more.
proof fn lemma_push_contains(s: Seq<i32>, v: i32, id: i32)
    ensures
        s.push(v).contains(id) <==> s.contains(id) || id == v,
{
    if s.contains(id) {
        let i = choose|i: int| 0 <= i < s.len() && s[i] == id;
        assert(s.push(v)[i] == id);
    }
    assert(s.push(v)[s.len() as int] == v);
}

/// An enemy seen is an enemy.
proof fn lemma_seen_is_there(mine: Seq<Hero>, enemies: Seq<Hero>, walls: Seq<Wall>)
    ensures
        first_seen(mine, enemies, walls) matches Some(id) ==> ids(enemies).contains(id),
    decreases mine.len(),
{
    if mine.len() > 0 {
        lemma_seen_by_is_there(mine[0], enemies, walls);
        lemma_seen_is_there(mine.drop_first(), enemies, walls);
    }
}

/// The same for one hero.
proof fn lemma_seen_by_is_there(hero: Hero, enemies: Seq<Hero>, walls: Seq<Wall>)
    ensures
        first_seen_by(hero, enemies, walls) matches Some(id) ==> ids(enemies).contains(id),
    decreases enemies.len(),
{
    if enemies.len() > 0 {
        let rest = enemies.drop_first();
        assert(ids(enemies)[0] == enemies[0].id);
        lemma_seen_by_is_there(hero, rest, walls);
        if let Some(id) = first_seen_by(hero, rest, walls) {
            let i = choose|i: int| 0 <= i < ids(rest).len() && ids(rest)[i] == id;
            assert(ids(enemies)[i + 1] == id);
        }
    }
}

/// The common target is always an enemy that is there.
pub proof fn law_focus_is_there(
    focus: Option<i32>,
    mine: Seq<Hero>,
    enemies: Seq<Hero>,
    walls: Seq<Wall>,
)
    ensures
        focus_after(focus, mine, enemies, walls) matches Some(id) ==> ids(enemies).contains(id),
{
    lemma_seen_is_there(mine, enemies, walls);
}

/// A turn played on the hunt has an enemy that is there as its quarry, or none.
pub proof fn law_quarry_is_there(
    hunt: Option<i32>,
    phase: Phase,
    mine: Seq<Hero>,
    enemies: Seq<Hero>,
    known: Seq<i32>,
    rally: (int, int),
)
    requires
        phase_after(phase, mine, enemies, known, rally) == Phase::Hunt,
    ensures
        hunt_after(hunt, phase, enemies, known) matches Some(id) ==> ids(enemies).contains(id),
{
    if enemies.len() > 0 {
        assert(ids(enemies)[0] == enemies[0].id);
    }
}

/// Among enemies there is a nearest one.
proof fn lemma_nearest_exists(hero: Hero, enemies: Seq<Hero>)
    requires
        enemies.len() > 0,
    ensures
        exists|i: int| is_nearest(hero, enemies, i),
    decreases enemies.len(),
{
    let n = enemies.len() - 1;
    if n == 0 {
        assert(is_nearest(hero, enemies, 0));
    } else {
        let rest = enemies.drop_last();
        lemma_nearest_exists(hero, rest);
        let i = choose|i: int| is_nearest(hero, rest, i);
        assert(is_nearest(hero, rest, i));
        assert(rest[i] == enemies[i]);
        let best = if crow_distance(hero, enemies[n]) < crow_distance(hero, enemies[i]) {
            n
        } else {
            i
        };
        assert forall|j: int| 0 <= j < enemies.len() implies crow_distance(hero, enemies[best])
            <= crow_distance(hero, #[trigger] enemies[j]) by {
            if j < n {
                assert(rest[j] == enemies[j]);
            }
        }
        assert forall|j: int| 0 <= j < best implies crow_distance(hero, enemies[best])
            < crow_distance(hero, #[trigger] enemies[j]) by {
            assert(rest[j] == enemies[j]);
        }
        assert(is_nearest(hero, enemies, best));
    }
}

/// A nearest enemy is one of them, and none is nearer.
proof fn lemma_nearest(hero: Hero, enemies: Seq<Hero>)
    requires
        enemies.len() > 0,
    ensures
        enemies.contains(nearest(hero, enemies)),
        forall|j: int|
            0 <= j < enemies.len() ==> crow_distance(hero, nearest(hero, enemies))
                <= crow_distance(hero, #[trigger] enemies[j]),
{
    lemma_nearest_exists(hero, enemies);
    let k = choose|k: int| is_nearest(hero, enemies, k);
    assert(is_nearest(hero, enemies, k));
    assert(enemies.contains(enemies[k]));
}

/// An enemy is in sight exactly if it is one of the enemies and the hero sees
/// it.
proof fn lemma_in_sight(hero: Hero, enemies: Seq<Hero>, walls: Seq<Wall>)
    ensures
        forall|e: Hero| #[trigger]
            in_sight(hero, enemies, walls).contains(e) <==> enemies.contains(e) && has_sight(
                hero,
                e,
                walls,
            ),
{
    let keep = |e: Hero| has_sight(hero, e, walls);
    let seen = enemies.filter(keep);
    assert forall|e: Hero| #[trigger] seen.contains(e) <==> enemies.contains(e) && has_sight(
        hero,
        e,
        walls,
    ) by {
        if seen.contains(e) {
            let i = choose|i: int| 0 <= i < seen.len() && seen[i] == e;
            enemies.lemma_filter_pred(keep, i);
            enemies.lemma_filter_contains_rev(keep, e);
        }
        if enemies.contains(e) && has_sight(hero, e, walls) {
            let i = choose|i: int| 0 <= i < enemies.len() && enemies[i] == e;
            enemies.lemma_filter_contains(keep, i);
        }
    }
}

/// A hero deals with one of the enemies whenever there is one. If it sees the
/// common target, it deals with an enemy of that id. Otherwise, if it sees any
/// enemy, it deals with one that it sees, and sees none that is nearer. If it
/// sees none, no enemy is nearer than the one it deals with.
pub proof fn law_opponent(hero: Hero, enemies: Seq<Hero>, focus: Option<i32>, walls: Seq<Wall>)
    ensures
        opponent(hero, enemies, focus, walls) is Some <==> enemies.len() > 0,
        opponent(hero, enemies, focus, walls) matches Some(enemy) ==> {
            &&& enemies.contains(enemy)
            &&& if focus is Some && sees_id(hero, enemies, focus->0, walls) {
                enemy.id == focus->0
            } else if exists|i: int|
                0 <= i < enemies.len() && has_sight(hero, #[trigger] enemies[i], walls) {
                &&& has_sight(hero, enemy, walls)
                &&& forall|j: int|
                    0 <= j < enemies.len() && has_sight(hero, #[trigger] enemies[j], walls)
                        ==> crow_distance(hero, enemy) <= crow_distance(hero, enemies[j])
            } else {
                forall|j: int|
                    0 <= j < enemies.len() ==> crow_distance(hero, enemy) <= crow_distance(
                        hero,
                        #[trigger] enemies[j],
                    )
            }
        },
{
    let seen = in_sight(hero, enemies, walls);
    lemma_in_sight(hero, enemies, walls);
    if focus is Some && sees_id(hero, enemies, focus->0, walls) {
        let i = choose|i: int|
            0 <= i < enemies.len() && (#[trigger] enemies[i]).id == focus->0 && has_sight(
                hero,
                enemies[i],
                walls,
            );
        lemma_first_with(enemies, focus->0, i);
        let k = choose|k: int| is_first_with(enemies, focus->0, k);
        assert(is_first_with(enemies, focus->0, k));
        assert(enemies.contains(enemies[k]));
    } else if seen.len() > 0 {
        let enemy = nearest(hero, seen);
        lemma_nearest(hero, seen);
        assert(seen.contains(enemy));
        assert forall|j: int|
            0 <= j < enemies.len() && has_sight(hero, #[trigger] enemies[j], walls) implies
            crow_distance(hero, enemy) <= crow_distance(hero, enemies[j]) by {
            assert(seen.contains(enemies[j]));
            let i = choose|i: int| 0 <= i < seen.len() && seen[i] == enemies[j];
            assert(seen[i] == enemies[j]);
        }
    } else {
        assert forall|j: int| 0 <= j < enemies.len() implies !has_sight(
            hero,
            #[trigger] enemies[j],
            walls,
        ) by {
            if has_sight(hero, enemies[j], walls) {
                assert(seen.contains(enemies[j]));
            }
        }
        if enemies.len() > 0 {
            lemma_nearest(hero, enemies);
        }
    }
}

/// Every order is one the hero can carry out. A shot is ordered only of a hero
/// whose weapon is ready, outside the rally, and at an enemy that the hero
/// sees. A move is ordered by one step to an open point, or not at all.
pub proof fn law_orders_can_be_carried_out(hero: Hero, s: Situation)
    ensures
        ({
            let intent = hero_intent(hero, s);
            if intent.shoots {
                &&& s.phase != Phase::Rally
                &&& hero.cooldown == 0
                &&& exists|i: int|
                    0 <= i < s.enemies.len() && position(#[trigger] s.enemies[i]) == intent.at
                        && has_sight(hero, s.enemies[i], s.map.walls)
            } else {
                intent.at == position(hero) || {
                    &&& s.map.open(intent.at)
                    &&& exists|k: int| 0 <= k < 8 && intent.at == #[trigger] advance(position(hero), k)
                }
            }
        }),
{
    let intent = hero_intent(hero, s);
    law_step_is_open(position(hero), snapped_point(s.rally), s.map);
    law_step_is_open(
        position(hero),
        snapped_point(patrol_target(s.phase, s.turn, hero, s.rally, s.map)),
        s.map,
    );
    if s.phase != Phase::Rally {
        if let Some(enemy) = opponent(hero, s.enemies, s.focus, s.map.walls) {
            law_opponent(hero, s.enemies, s.focus, s.map.walls);
            law_shoots_exactly_when_able(hero, enemy, s.map);
            let i = choose|i: int| 0 <= i < s.enemies.len() && s.enemies[i] == enemy;
            assert(s.enemies[i] == enemy);
            law_step_is_open(
                position(hero),
                snapped_point(tactical_intent(hero, enemy, s.map).at),
                s.map,
            );
        }
    }
}

/// While the bot rallies, a hero goes straight for the rally point, whatever
/// enemies there are.
pub proof fn law_rally_goes_straight(hero: Hero, s: Situation)
    requires
        s.phase == Phase::Rally,
    ensures
        !hero_intent(hero, s).shoots,
        hero_intent(hero, s).at == next_step(position(hero), snapped_point(s.rally), s.map),
{
}

/// After the rally, a hero that can shoot the enemy it deals with does so, in
/// the endgame as well.
pub proof fn law_ready_heroes_shoot(hero: Hero, s: Situation, enemy: Hero)
    requires
        s.phase != Phase::Rally,
        opponent(hero, s.enemies, s.focus, s.map.walls) == Some(enemy),
        separation(hero, enemy) >= TOO_CLOSE_DIST,
        hero.cooldown == 0,
        has_sight(hero, enemy, s.map.walls),
    ensures
        hero_intent(hero, s).shoots,
        hero_intent(hero, s).at == position(enemy),
{
    law_shoots_exactly_when_able(hero, enemy, s.map);
}

/// In the endgame, a hero heads for the centre of the map unless it shoots or
/// the enemy it deals with is too close.
pub proof fn law_endgame_heads_for_centre(hero: Hero, s: Situation)
    requires
        s.phase == Phase::Endgame,
        !hero_intent(hero, s).shoots,
        opponent(hero, s.enemies, s.focus, s.map.walls) matches Some(enemy) ==> separation(
            hero,
            enemy,
        ) >= TOO_CLOSE_DIST,
    ensures
        hero_intent(hero, s).at == next_step(
            position(hero),
            snapped_point(snapped_point((half(s.map.width), half(s.map.height)))),
            s.map,
        ),
{
}

/// After the rally, a hero whose weapon is ready and that sees enemies, none
/// of them too close, shoots at one of them, if no two enemies have the id of
/// the common target.
pub proof fn law_seen_enemies_are_shot_at(hero: Hero, s: Situation, i: int)
    requires
        s.phase != Phase::Rally,
        hero.cooldown == 0,
        0 <= i < s.enemies.len(),
        has_sight(hero, s.enemies[i], s.map.walls),
        forall|j: int|
            0 <= j < s.enemies.len() && has_sight(hero, #[trigger] s.enemies[j], s.map.walls)
                ==> separation(hero, s.enemies[j]) >= TOO_CLOSE_DIST,
        s.focus matches Some(id) ==> forall|j: int, k: int|
            0 <= j < k < s.enemies.len() ==> !(#[trigger] s.enemies[j].id == id
                && #[trigger] s.enemies[k].id == id),
    ensures
        hero_intent(hero, s).shoots,
{
    let walls = s.map.walls;
    law_opponent(hero, s.enemies, s.focus, walls);
    let enemy = opponent(hero, s.enemies, s.focus, walls)->0;
    let k = choose|k: int| 0 <= k < s.enemies.len() && s.enemies[k] == enemy;
    if s.focus is Some && sees_id(hero, s.enemies, s.focus->0, walls) {
        let j = choose|j: int|
            0 <= j < s.enemies.len() && (#[trigger] s.enemies[j]).id == s.focus->0 && has_sight(
                hero,
                s.enemies[j],
                walls,
            );
        assert(s.enemies[j].id == s.enemies[k].id);
        assert(j == k);
    }
    assert(has_sight(hero, s.enemies[k], walls));
    law_shoots_exactly_when_able(hero, enemy, s.map);
}

/// Every hero shown is on one side or the other, by its owner, and each side
/// keeps the order in which its heroes are shown.
pub proof fn law_sides(heroes: Seq<Hero>, player: i32, next: Hero)
    ensures
        own_heroes(Seq::empty(), player) == Seq::<Hero>::empty(),
        foes(Seq::empty(), player) == Seq::<Hero>::empty(),
        next.owner_id == player ==> {
            &&& own_heroes(heroes.push(next), player) == own_heroes(heroes, player).push(next)
            &&& foes(heroes.push(next), player) == foes(heroes, player)
        },
        next.owner_id != player ==> {
            &&& own_heroes(heroes.push(next), player) == own_heroes(heroes, player)
            &&& foes(heroes.push(next), player) == foes(heroes, player).push(next)
        },
{
    let all = heroes.push(next);
    let n = heroes.len() as int;
    let own = |h: Hero| h.owner_id == player;
    let other = |h: Hero| h.owner_id != player;
    lemma_filter_next(all, own, n);
    lemma_filter_next(all, other, n);
    assert(all.take(n) =~= heroes);
    assert(all.take(n + 1) =~= all);
    reveal(Seq::filter);
    assert(own_heroes(Seq::empty(), player) =~= Seq::empty());
    assert(foes(Seq::empty(), player) =~= Seq::empty());
}

/// The ids of heroes are theirs, one for each in their order.
pub proof fn law_ids(heroes: Seq<Hero>)
    ensures
        ids(heroes).len() == heroes.len(),
        forall|i: int| 0 <= i < heroes.len() ==> #[trigger] ids(heroes)[i] == heroes[i].id,
        heroes.len() == 0 ==> first_id(heroes) is None,
        heroes.len() > 0 ==> first_id(heroes) == Some(heroes[0].id),
{
}

/// An enemy is noted at the end of the list when it is first shown, and not
/// again.
pub proof fn law_enemies_are_noted_in_order(known: Seq<i32>, enemies: Seq<Hero>, next: Hero)
    ensures
        known_after(known, Seq::empty()) == known,
        known_after(known, enemies).contains(next.id) ==> known_after(known, enemies.push(next))
            == known_after(known, enemies),
        !known_after(known, enemies).contains(next.id) ==> known_after(known, enemies.push(next))
            == known_after(known, enemies).push(next.id),
{
    assert(enemies.push(next).drop_last() =~= enemies);
}

/// The hero and the enemy at these indices are the first two of which the one
/// sees the other: no earlier hero sees anyone, and that hero sees no earlier
/// enemy.
pub open spec fn is_first_sight(
    mine: Seq<Hero>,
    enemies: Seq<Hero>,
    walls: Seq<Wall>,
    m: int,
    e: int,
) -> bool {
    &&& 0 <= m < mine.len()
    &&& 0 <= e < enemies.len()
    &&& sight_between(mine[m], enemies[e], walls)
    &&& forall|m2: int, e2: int|
        0 <= m2 < mine.len() && 0 <= e2 < enemies.len() && (m2 < m || m2 == m && e2 < e)
            ==> !sight_between(#[trigger] mine[m2], #[trigger] enemies[e2], walls)
}

/// No wall is in the way from the first hero to the second.
pub open spec fn sight_between(a: Hero, b: Hero, walls: Seq<Wall>) -> bool {
    sees(a.x as int, a.y as int, b.x as int, b.y as int, walls)
}

/// The common target stays the same while an enemy of its id is there. When
/// there is none, the new one is the first enemy seen by the first hero that
/// sees any, and only if no hero sees any enemy is there none.
pub proof fn law_common_target(
    focus: Option<i32>,
    mine: Seq<Hero>,
    enemies: Seq<Hero>,
    walls: Seq<Wall>,
)
    ensures
        forall|i: int|
            0 <= i < enemies.len() && focus == Some((#[trigger] enemies[i]).id) ==> focus_after(
                focus,
                mine,
                enemies,
                walls,
            ) == focus,
        (forall|i: int| 0 <= i < enemies.len() ==> focus != Some((#[trigger] enemies[i]).id)) ==> {
            &&& forall|m: int, e: int| #[trigger]
                is_first_sight(mine, enemies, walls, m, e) ==> focus_after(
                    focus,
                    mine,
                    enemies,
                    walls,
                ) == Some(enemies[e].id)
            &&& (forall|m: int, e: int|
                0 <= m < mine.len() && 0 <= e < enemies.len() ==> !sight_between(
                    #[trigger] mine[m],
                    #[trigger] enemies[e],
                    walls,
                )) ==> focus_after(focus, mine, enemies, walls) is None
        },
{
    assert forall|i: int|
        0 <= i < enemies.len() && focus == Some((#[trigger] enemies[i]).id) implies focus_after(
        focus,
        mine,
        enemies,
        walls,
    ) == focus by {
        assert(ids(enemies)[i] == enemies[i].id);
    }
    if forall|i: int| 0 <= i < enemies.len() ==> focus != Some((#[trigger] enemies[i]).id) {
        if focus is Some && ids(enemies).contains(focus->0) {
            let i = choose|i: int| 0 <= i < ids(enemies).len() && ids(enemies)[i] == focus->0;
            assert(focus != Some(enemies[i].id));
        }
        assert forall|m: int, e: int| #[trigger]
            is_first_sight(mine, enemies, walls, m, e) implies focus_after(
            focus,
            mine,
            enemies,
            walls,
        ) == Some(enemies[e].id) by {
            assert forall|i: int| 0 <= i < m implies first_seen_by(
                #[trigger] mine[i],
                enemies,
                walls,
            ) is None by {
                lemma_first_seen_by(mine[i], enemies, walls, enemies.len() as int);
            }
            lemma_first_seen_by(mine[m], enemies, walls, e);
            lemma_first_seen(mine, enemies, walls, m);
        }
        if forall|m: int, e: int|
            0 <= m < mine.len() && 0 <= e < enemies.len() ==> !sight_between(
                #[trigger] mine[m],
                #[trigger] enemies[e],
                walls,
            ) {
            assert forall|i: int| 0 <= i < mine.len() implies first_seen_by(
                #[trigger] mine[i],
                enemies,
                walls,
            ) is None by {
                lemma_first_seen_by(mine[i], enemies, walls, enemies.len() as int);
            }
            lemma_first_seen(mine, enemies, walls, mine.len() as int);
        }
    }
}

/// The facts of a turn enter its situation as they are.
pub proof fn law_situation(
    player: i32,
    map: Arena,
    phase: Phase,
    known: Seq<i32>,
    focus: Option<i32>,
    rally: (int, int),
    turn: int,
    heroes: Seq<Hero>,
)
    ensures
        ({
            let s = situation(player, map, phase, known, focus, rally, turn, heroes);
            &&& s.turn == turn
            &&& s.rally == rally
            &&& s.map == map
            &&& s.enemies == foes(heroes, player)
            &&& s.focus == focus_after(
                focus,
                own_heroes(heroes, player),
                foes(heroes, player),
                map.walls,
            )
        }),
{
}

/// Before turn 190, a turn entered in the rally is played on the attack exactly
/// if every one of the player's heroes is within nine units of the rally point
/// in both coordinates; one that is not keeps all of them rallying.
pub proof fn law_rally_waits_for_everyone(
    player: i32,
    map: Arena,
    known: Seq<i32>,
    focus: Option<i32>,
    rally: (int, int),
    turn: int,
    heroes: Seq<Hero>,
)
    requires
        turn < 190,
    ensures
        ({
            let mine = own_heroes(heroes, player);
            let after = situation(
                player,
                map,
                Phase::Rally,
                known,
                focus,
                rally,
                turn,
                heroes,
            ).phase;
            &&& after == Phase::Rally || after == Phase::Attack
            &&& after == Phase::Attack <==> forall|i: int|
                0 <= i < mine.len() ==> {
                    &&& rally.0 - 9 <= (#[trigger] mine[i]).x <= rally.0 + 9
                    &&& rally.1 - 9 <= mine[i].y <= rally.1 + 9
                }
        }),
{
    let mine = own_heroes(heroes, player);
    if gathered(mine, rally) {
        assert forall|i: int| 0 <= i < mine.len() implies {
            &&& rally.0 - 9 <= (#[trigger] mine[i]).x <= rally.0 + 9
            &&& rally.1 - 9 <= mine[i].y <= rally.1 + 9
        } by {
            assert(near(mine[i], rally.0, rally.1, RALLY_RADIUS as int));
        }
    } else {
        let i = choose|i: int|
            0 <= i < mine.len() && !near(
                #[trigger] mine[i],
                rally.0,
                rally.1,
                RALLY_RADIUS as int,
            );
        assert(!near(mine[i], rally.0, rally.1, RALLY_RADIUS as int));
    }
}

/// Before turn 190, a turn entered on the attack is played on the hunt exactly
/// if an enemy seen before, or shown now, is not among those shown. One entered
/// on the hunt is played on the hunt.
pub proof fn law_hunt_begins_when_one_is_gone(
    player: i32,
    map: Arena,
    known: Seq<i32>,
    focus: Option<i32>,
    rally: (int, int),
    turn: int,
    heroes: Seq<Hero>,
)
    requires
        turn < 190,
    ensures
        ({
            let enemies = foes(heroes, player);
            let after = situation(
                player,
                map,
                Phase::Attack,
                known,
                focus,
                rally,
                turn,
                heroes,
            ).phase;
            &&& after == Phase::Attack || after == Phase::Hunt
            &&& after == Phase::Hunt <==> exists|i: int|
                0 <= i < known.len() && forall|j: int|
                    0 <= j < enemies.len() ==> (#[trigger] enemies[j]).id != #[trigger] known[i]
        }),
        situation(player, map, Phase::Hunt, known, focus, rally, turn, heroes).phase == Phase::Hunt,
{
    lemma_missing(known, foes(heroes, player));
}

/// An enemy known is missing exactly if one known before is not shown.
proof fn lemma_missing(known: Seq<i32>, enemies: Seq<Hero>)
    ensures
        one_is_missing(known_after(known, enemies), enemies) <==> exists|i: int|
            0 <= i < known.len() && forall|j: int|
                0 <= j < enemies.len() ==> (#[trigger] enemies[j]).id != #[trigger] known[i],
{
    let after = known_after(known, enemies);
    law_known_enemies(known, enemies);
    if one_is_missing(after, enemies) {
        let i = choose|i: int| 0 <= i < after.len() && !ids(enemies).contains(#[trigger] after[i]);
        assert(after.contains(after[i]));
        assert(known.contains(after[i]));
        let k = choose|k: int| 0 <= k < known.len() && known[k] == after[i];
        assert forall|j: int| 0 <= j < enemies.len() implies (#[trigger] enemies[j]).id
            != known[k] by {
            assert(ids(enemies)[j] == enemies[j].id);
        }
    }
    if exists|i: int|
        0 <= i < known.len() && forall|j: int|
            0 <= j < enemies.len() ==> (#[trigger] enemies[j]).id != #[trigger] known[i] {
        let i = choose|i: int|
            0 <= i < known.len() && forall|j: int|
                0 <= j < enemies.len() ==> (#[trigger] enemies[j]).id != #[trigger] known[i];
        assert(known.contains(known[i]));
        assert(after.contains(known[i]));
        let k = choose|k: int| 0 <= k < after.len() && after[k] == known[i];
        if ids(enemies).contains(known[i]) {
            let j = choose|j: int| 0 <= j < ids(enemies).len() && ids(enemies)[j] == known[i];
            assert(enemies[j].id != known[i]);
        }
        assert(!ids(enemies).contains(after[k]));
    }
}

/// From turn 190 on every turn is played in the endgame, and before it only
/// those entered in it.
pub proof fn law_endgame_from_turn_190(
    player: i32,
    map: Arena,
    phase: Phase,
    known: Seq<i32>,
    focus: Option<i32>,
    rally: (int, int),
    turn: int,
    heroes: Seq<Hero>,
)
    ensures
        turn >= 190 ==> situation(
            player,
            map,
            phase,
            known,
            focus,
            rally,
            turn,
            heroes,
        ).phase == Phase::Endgame,
        turn < 190 ==> (situation(player, map, phase, known, focus, rally, turn, heroes).phase
            == Phase::Endgame <==> phase == Phase::Endgame),
{
}

/// The quarry changes only when the hunt begins and, on the hunt, when no
/// enemy of its id is shown. It is then the first enemy shown, if there is one.
/// A hunt without a quarry stays without one.
pub proof fn law_quarry(
    hunt: Option<i32>,
    phase: Phase,
    turn: int,
    known: Seq<i32>,
    enemies: Seq<Hero>,
)
    ensures
        ({
            let after = hunt_after(
                hunt,
                phase_entered(phase, turn),
                enemies,
                known_after(known, enemies),
            );
            let next = if enemies.len() > 0 {
                Some(enemies[0].id)
            } else {
                None
            };
            let begins = turn < 190 && phase == Phase::Attack && exists|i: int|
                0 <= i < known.len() && forall|j: int|
                    0 <= j < enemies.len() ==> (#[trigger] enemies[j]).id != #[trigger] known[i];
            let lost = turn < 190 && phase == Phase::Hunt && hunt is Some && forall|j: int|
                0 <= j < enemies.len() ==> (#[trigger] enemies[j]).id != hunt->0;
            &&& begins || lost ==> after == next
            &&& !begins && !lost ==> after == hunt
        }),
{
    lemma_missing(known, enemies);
    if hunt is Some {
        if ids(enemies).contains(hunt->0) {
            let j = choose|j: int| 0 <= j < ids(enemies).len() && ids(enemies)[j] == hunt->0;
            assert(enemies[j].id == hunt->0);
        } else {
            assert forall|j: int| 0 <= j < enemies.len() implies (#[trigger] enemies[j]).id
                != hunt->0 by {
                assert(ids(enemies)[j] == enemies[j].id);
            }
        }
    }
}

/// On the attack and on the hunt, a hero without an enemy heads for the same
/// place fifteen turns later. In the first five turns of each cycle that is the
/// centre of the map, snapped, in the next five the left edge at the hero's own
/// height, and in the last five the rally point. Before the first turn it is
/// the centre.
pub proof fn law_patrol_goes_in_cycles(
    phase: Phase,
    turn: int,
    hero: Hero,
    rally: (int, int),
    map: Arena,
    cycle: int,
    n: int,
)
    requires
        phase == Phase::Attack || phase == Phase::Hunt,
        0 <= cycle,
        0 <= n < 5,
    ensures
        turn >= 0 ==> patrol_target(phase, turn + 15, hero, rally, map) == patrol_target(
            phase,
            turn,
            hero,
            rally,
            map,
        ),
        turn < 0 ==> patrol_target(phase, turn, hero, rally, map) == snapped_point(
            (half(map.width), half(map.height)),
        ),
        patrol_target(phase, 15 * cycle + n, hero, rally, map) == snapped_point(
            (half(map.width), half(map.height)),
        ),
        patrol_target(phase, 15 * cycle + 5 + n, hero, rally, map) == (1int, snapped_point(
            (1, hero.y as int),
        ).1),
        patrol_target(phase, 15 * cycle + 10 + n, hero, rally, map) == rally,
{
}

/// While the bot rallies a hero heads for the rally point, in the endgame for
/// the centre of the map, at whatever turn.
pub proof fn law_other_destinations(turn: int, hero: Hero, rally: (int, int), map: Arena)
    ensures
        patrol_target(Phase::Rally, turn, hero, rally, map) == rally,
        patrol_target(Phase::Endgame, turn, hero, rally, map) == snapped_point(
            (half(map.width), half(map.height)),
        ),
{
}

/// Distances as the crow flies are compared by the sum of the squares.
pub proof fn law_crow_distance(a: Hero, b: Hero)
    ensures
        crow_distance(a, b) == (a.x - b.x) * (a.x - b.x) + (a.y - b.y) * (a.y - b.y),
        crow_distance(a, b) == crow_distance(b, a),
{
    assert((a.x - b.x) * (a.x - b.x) == (b.x - a.x) * (b.x - a.x)) by (nonlinear_arith);
    assert((a.y - b.y) * (a.y - b.y) == (b.y - a.y) * (b.y - a.y)) by (nonlinear_arith);
}

/// Of the enemies that `among` accepts, the one at `i` is nearest to the hero,
/// and nearer than all before it.
pub open spec fn is_nearest_among(
    hero: Hero,
    enemies: Seq<Hero>,
    among: spec_fn(Hero) -> bool,
    i: int,
) -> bool {
    &&& 0 <= i < enemies.len()
    &&& among(enemies[i])
    &&& forall|j: int|
        0 <= j < enemies.len() && among(#[trigger] enemies[j]) ==> crow_distance(hero, enemies[i])
            <= crow_distance(hero, enemies[j])
    &&& forall|j: int|
        0 <= j < i && among(#[trigger] enemies[j]) ==> crow_distance(hero, enemies[i])
            < crow_distance(hero, enemies[j])
}

/// An enemy nearest among some stays so when the others are left out.
proof fn lemma_nearest_among(
    hero: Hero,
    enemies: Seq<Hero>,
    among: spec_fn(Hero) -> bool,
    i: int,
) -> (p: int)
    requires
        is_nearest_among(hero, enemies, among, i),
    ensures
        is_nearest(hero, enemies.filter(among), p),
        enemies.filter(among)[p] == enemies[i],
    decreases enemies.len(),
{
    let n = enemies.len() - 1;
    let rest = enemies.drop_last();
    let kept = rest.filter(among);
    let all = enemies.filter(among);
    assert(enemies.take(n) =~= rest);
    assert(enemies.take(n + 1) =~= enemies);
    lemma_filter_next(enemies, among, n);
    assert forall|j: int| 0 <= j < kept.len() implies among(#[trigger] kept[j]) && rest.contains(
        kept[j],
    ) by {
        rest.lemma_filter_pred(among, j);
        assert(kept.contains(kept[j]));
        rest.lemma_filter_contains_rev(among, kept[j]);
    }
    if i < n {
        assert(rest[i] == enemies[i]);
        assert forall|j: int| 0 <= j < rest.len() && among(#[trigger] rest[j]) implies crow_distance(
            hero,
            rest[i],
        ) <= crow_distance(hero, rest[j]) by {
            assert(rest[j] == enemies[j]);
        }
        assert forall|j: int| 0 <= j < i && among(#[trigger] rest[j]) implies crow_distance(
            hero,
            rest[i],
        ) < crow_distance(hero, rest[j]) by {
            assert(rest[j] == enemies[j]);
        }
        let p = lemma_nearest_among(hero, rest, among, i);
        assert(all[p] == kept[p]);
        assert forall|j: int| 0 <= j < all.len() implies crow_distance(hero, all[p])
            <= crow_distance(hero, #[trigger] all[j]) by {
            if j < kept.len() {
                assert(all[j] == kept[j]);
            } else {
                assert(all[j] == enemies[n]);
            }
        }
        assert forall|j: int| 0 <= j < p implies crow_distance(hero, all[p]) < crow_distance(
            hero,
            #[trigger] all[j],
        ) by {
            assert(all[j] == kept[j]);
        }
        p
    } else {
        let p = kept.len() as int;
        assert(all[p] == enemies[i]);
        assert forall|j: int| 0 <= j < p implies crow_distance(hero, all[p]) < crow_distance(
            hero,
            #[trigger] all[j],
        ) by {
            assert(all[j] == kept[j]);
            let k = choose|k: int| 0 <= k < rest.len() && rest[k] == kept[j];
            assert(enemies[k] == kept[j]);
        }
        p
    }
}

/// There is one nearest enemy, the first being taken.
proof fn lemma_nearest_is(hero: Hero, enemies: Seq<Hero>, p: int)
    requires
        is_nearest(hero, enemies, p),
    ensures
        nearest(hero, enemies) == enemies[p],
{
    let c = choose|c: int| is_nearest(hero, enemies, c);
    assert(is_nearest(hero, enemies, c));
    if c < p {
        assert(crow_distance(hero, enemies[c]) <= crow_distance(hero, enemies[p]));
    } else if p < c {
        assert(crow_distance(hero, enemies[p]) <= crow_distance(hero, enemies[c]));
    }
}

/// Which enemy a hero deals with. If it sees one that has the id of the common
/// target, the first of that id. Otherwise, of the enemies it sees, the nearest,
/// and of several equally near the first. If it sees none, the same of all.
pub proof fn law_opponent_is_the_first_nearest(
    hero: Hero,
    enemies: Seq<Hero>,
    focus: Option<i32>,
    walls: Seq<Wall>,
    i: int,
)
    requires
        0 <= i < enemies.len(),
    ensures
        ({
            let target_seen = exists|j: int|
                0 <= j < enemies.len() && focus == Some((#[trigger] enemies[j]).id)
                    && sight_between(hero, enemies[j], walls);
            let one_seen = exists|j: int|
                0 <= j < enemies.len() && sight_between(hero, #[trigger] enemies[j], walls);
            let chosen = if target_seen {
                &&& focus == Some(enemies[i].id)
                &&& forall|j: int| 0 <= j < i ==> focus != Some((#[trigger] enemies[j]).id)
            } else if one_seen {
                is_nearest_among(hero, enemies, |e: Hero| sight_between(hero, e, walls), i)
            } else {
                is_nearest_among(hero, enemies, |e: Hero| true, i)
            };
            chosen ==> opponent(hero, enemies, focus, walls) == Some(enemies[i])
        }),
{
    let seen = in_sight(hero, enemies, walls);
    let sighted = |e: Hero| sight_between(hero, e, walls);
    let anyone = |e: Hero| true;
    lemma_in_sight(hero, enemies, walls);
    let target_seen = exists|j: int|
        0 <= j < enemies.len() && focus == Some((#[trigger] enemies[j]).id) && sight_between(
            hero,
            enemies[j],
            walls,
        );
    if target_seen {
        let id = focus->0;
        assert(sees_id(hero, enemies, id, walls));
        if enemies[i].id == id && (forall|j: int|
            0 <= j < i ==> focus != Some((#[trigger] enemies[j]).id)) {
            assert(is_first_with(enemies, id, i));
            let k = choose|k: int| is_first_with(enemies, id, k);
            assert(is_first_with(enemies, id, k));
            if k < i {
                assert(focus != Some(enemies[k].id));
            } else if i < k {
                assert(enemies[i].id != id);
            }
        }
    } else {
        assert(!(focus is Some && sees_id(hero, enemies, focus->0, walls)));
        assert(enemies.filter(sighted) =~= seen) by {
            assert(sighted =~= (|e: Hero| has_sight(hero, e, walls)));
        }
        let one_seen = exists|j: int|
            0 <= j < enemies.len() && sight_between(hero, #[trigger] enemies[j], walls);
        if one_seen {
            if is_nearest_among(hero, enemies, sighted, i) {
                let p = lemma_nearest_among(hero, enemies, sighted, i);
                lemma_nearest_is(hero, seen, p);
            }
        } else {
            if seen.len() > 0 {
                assert(seen.contains(seen[0]));
                let j = choose|j: int| 0 <= j < enemies.len() && enemies[j] == seen[0];
                assert(sight_between(hero, enemies[j], walls));
            }
            if is_nearest_among(hero, enemies, anyone, i) {
                assert(is_nearest(hero, enemies, i));
                lemma_nearest_is(hero, enemies, i);
            }
        }
    }
}

/// What a hero is ordered to do. While the bot rallies, the next step of the
/// way to the rally point. Without an enemy, the next step of the way to where
/// the hero heads for. Against an enemy, the shot that its tactics choose; if
/// they choose a move, the next step of the way, in the endgame to the centre
/// unless the enemy is less than nine units away.
pub proof fn law_orders_follow_tactics(hero: Hero, s: Situation)
    ensures
        ({
            let here = (hero.x as int, hero.y as int);
            let intent = hero_intent(hero, s);
            let headed = snapped_point(patrol_target(s.phase, s.turn, hero, s.rally, s.map));
            &&& s.phase == Phase::Rally ==> {
                &&& !intent.shoots
                &&& intent.at == next_step(here, snapped_point(s.rally), s.map)
                &&& intent.comment == "🏃rally"@
            }
            &&& s.phase != Phase::Rally && s.enemies.len() == 0 ==> {
                &&& !intent.shoots
                &&& intent.at == next_step(here, headed, s.map)
                &&& intent.comment == "🏃noenemies"@
            }
            &&& s.phase != Phase::Rally && s.enemies.len() > 0 ==> {
                let enemy = opponent(hero, s.enemies, s.focus, s.map.walls)->0;
                let chosen = tactical_intent(hero, enemy, s.map);
                let close = king_distance(
                    hero.x as int,
                    hero.y as int,
                    enemy.x as int,
                    enemy.y as int,
                ) < 9;
                &&& intent.shoots == chosen.shoots
                &&& intent.comment == chosen.comment
                &&& chosen.shoots ==> intent.at == chosen.at
                &&& !chosen.shoots && s.phase == Phase::Endgame && !close ==> intent.at
                    == next_step(here, headed, s.map)
                &&& !chosen.shoots && (s.phase != Phase::Endgame || close) ==> intent.at
                    == next_step(here, snapped_point(chosen.at), s.map)
            }
        }),
{
    law_opponent(hero, s.enemies, s.focus, s.map.walls);
}

/// Each of the heroes gets one order, in their order and under its own id.
pub proof fn law_one_order_each(mine: Seq<Hero>, s: Situation)
    ensures
        orders_for(mine, s).len() == mine.len(),
        forall|i: int|
            0 <= i < mine.len() ==> (#[trigger] orders_for(mine, s)[i]).hero_id == mine[i].id
                && orders_for(mine, s)[i].intent == hero_intent(mine[i], s),
{
}

/// Orders, and the texts of orders, are spoken of one by one.
pub proof fn law_orders_one_by_one(
    orders: Seq<Order>,
    messages: Seq<String>,
    models: Seq<OrderModel>,
)
    ensures
        order_models(orders).len() == orders.len(),
        forall|i: int|
            0 <= i < orders.len() ==> (#[trigger] order_models(orders)[i]).hero_id
                == orders[i].hero_id && order_models(orders)[i].intent == orders[i].action@,
        texts(messages).len() == messages.len(),
        forall|i: int| 0 <= i < messages.len() ==> #[trigger] texts(messages)[i] == messages[i]@,
        order_texts(models).len() == models.len(),
        forall|i: int|
            0 <= i < models.len() ==> #[trigger] order_texts(models)[i] == text_of(models[i]),
{
}

/// The text of an order is that of a document with a command, by what is
/// ordered, and with the hero's id, the point and the comment as arguments.
pub proof fn law_order_document(order: OrderModel) -> (doc: Map<Seq<char>, Json>)
    ensures
        text_of(order) == json_text(Json::Object(doc)),
        doc.dom() == set!["command"@, "args"@],
        order.intent.shoots ==> doc["command"@] == Json::Text("SHOOT"@),
        !order.intent.shoots ==> doc["command"@] == Json::Text("MOVE"@),
        doc["args"@] matches Json::Object(args) && {
            &&& args.dom() == set!["hero_id"@, "x"@, "y"@, "comment"@]
            &&& args["hero_id"@] == Json::Int(order.hero_id)
            &&& args["x"@] == Json::Int(order.intent.at.0)
            &&& args["y"@] == Json::Int(order.intent.at.1)
            &&& args["comment"@] == Json::Text(order.intent.comment)
        },
{
    reveal_strlit("command");
    reveal_strlit("args");
    reveal_strlit("hero_id");
    reveal_strlit("x");
    reveal_strlit("y");
    reveal_strlit("comment");
    assert("command"@.len() == 7 && "args"@.len() == 4);
    assert("hero_id"@.len() == 7 && "x"@.len() == 1 && "y"@.len() == 1 && "comment"@.len() == 7);
    assert("hero_id"@[0] != "comment"@[0]);
    assert("x"@[0] != "y"@[0]);
    let args = order_args(order.hero_id, order.intent.at.0, order.intent.at.1, order.intent.comment);
    let command = if order.intent.shoots {
        "SHOOT"@
    } else {
        "MOVE"@
    };
    assert(args->Object_0.dom() =~= set!["hero_id"@, "x"@, "y"@, "comment"@]);
    let doc = envelope(command, args)->Object_0;
    assert(doc.dom() =~= set!["command"@, "args"@]);
    doc
}

} // verus!
