//! What one hero does about the enemy nearest to it.
use crate::grid::{arena, is_open, king_distance, snap, snapped_point, wide_dist, Arena};
use crate::protocol::{Hero, Wall};
use crate::route::{bfs_next_step, law_step_is_open, next_step};
use crate::sight::{enemy_can_shoot_hero, has_line_of_sight, sees, threatens};
use vstd::prelude::*;

verus! {

/// The distance a hero likes to keep from an enemy: about five steps, enough
/// to see it and far from hand-to-hand fighting.
pub const PREFERRED_KITE_DIST: i32 = 15;

/// Nearer than this, a hero retreats before anything else, shooting included.
pub const TOO_CLOSE_DIST: i32 = 9;

/// What a hero sets out to do, with a comment for onlookers.
#[derive(Debug, Clone)]
pub enum TacticalAction {
    Shoot { target_x: i32, target_y: i32, comment: &'static str },
    Move { dest_x: i32, dest_y: i32, comment: &'static str },
}

/// An action as contracts speak of it: whether it is a shot, at which point
/// it aims, and its comment.
pub struct Intent {
    pub shoots: bool,
    pub at: (int, int),
    pub comment: Seq<char>,
}

/// The intent to go to a point.
pub open spec fn move_to(at: (int, int), comment: Seq<char>) -> Intent {
    Intent { shoots: false, at, comment }
}

impl View for TacticalAction {
    type V = Intent;

    open spec fn view(&self) -> Intent {
        match *self {
            TacticalAction::Shoot { target_x, target_y, comment } => Intent {
                shoots: true,
                at: (target_x as int, target_y as int),
                comment: comment@,
            },
            TacticalAction::Move { dest_x, dest_y, comment } => move_to(
                (dest_x as int, dest_y as int),
                comment@,
            ),
        }
    }
}

/// Where a hero stands.
pub open spec fn position(hero: Hero) -> (int, int) {
    (hero.x as int, hero.y as int)
}

/// One, zero or minus one, by the sign of the number.
pub open spec fn sign(v: int) -> int {
    if v > 0 {
        1
    } else if v < 0 {
        -1
    } else {
        0
    }
}

/// The hero sees the enemy.
pub open spec fn has_sight(hero: Hero, enemy: Hero, walls: Seq<Wall>) -> bool {
    sees(hero.x as int, hero.y as int, enemy.x as int, enemy.y as int, walls)
}

/// How far the hero is from the enemy.
pub open spec fn separation(hero: Hero, enemy: Hero) -> int {
    king_distance(hero.x as int, hero.y as int, enemy.x as int, enemy.y as int)
}

/// The ways out of the line of fire, best first, where `(sx, sy)` points from
/// the enemy to the hero: to either side, straight back, back to either side,
/// and twice as far to the first side.
pub open spec fn kite_offset(sx: int, sy: int, k: int) -> (int, int) {
    if k == 0 {
        (-3 * sy, 3 * sx)
    } else if k == 1 {
        (3 * sy, -3 * sx)
    } else if k == 2 {
        (3 * sx, 3 * sy)
    } else if k == 3 {
        (-3 * sy + 3 * sx, 3 * sx + 3 * sy)
    } else if k == 4 {
        (3 * sy + 3 * sx, -3 * sx + 3 * sy)
    } else {
        (-6 * sy, 6 * sx)
    }
}

/// The point that way out `k` ends on.
pub open spec fn kite_spot(hero: Hero, enemy: Hero, k: int) -> (int, int) {
    let way = kite_offset(sign(hero.x - enemy.x), sign(hero.y - enemy.y), k);
    snapped_point((hero.x + way.0, hero.y + way.1))
}

/// A hero may stand on the point and, if it is to keep its sight of the enemy,
/// sees it from there.
pub open spec fn good_spot(p: (int, int), enemy: Hero, map: Arena, keep_los: bool) -> bool {
    &&& map.open(p)
    &&& keep_los ==> sees(p.0, p.1, enemy.x as int, enemy.y as int, map.walls)
}

/// The good spots among the first `n` ways out, in order.
pub open spec fn kite_spots(hero: Hero, enemy: Hero, map: Arena, keep_los: bool, n: nat) -> Seq<
    (int, int),
> {
    Seq::new(n, |k: int| kite_spot(hero, enemy, k)).filter(
        |p: (int, int)| good_spot(p, enemy, map, keep_los),
    )
}

/// The first good spot, if there is one.
pub open spec fn kite_choice(hero: Hero, enemy: Hero, map: Arena, keep_los: bool) -> Option<
    (int, int),
> {
    let spots = kite_spots(hero, enemy, map, keep_los, 6);
    if spots.len() == 0 {
        None
    } else {
        Some(spots[0])
    }
}

/// What a hero does about an enemy. Too close, it retreats. Otherwise it
/// shoots if it can. Otherwise, unless its weapon is ready, it steps out of
/// the line of fire of an enemy that can shoot it, keeping sight of that enemy
/// if possible. Safe from the enemy, or with no way out, it keeps its distance
/// while its weapon cools down, and else hunts the enemy.
pub open spec fn tactical_intent(hero: Hero, enemy: Hero, map: Arena) -> Intent {
    let here = position(hero);
    let closer = next_step(here, snapped_point(position(enemy)), map);
    let seen = kite_choice(hero, enemy, map, true);
    let hidden = kite_choice(hero, enemy, map, false);
    let threatened = threatens(enemy, hero, map.walls);
    if separation(hero, enemy) < TOO_CLOSE_DIST {
        match hidden {
            Some(spot) => move_to(spot, "🏃retreat"@),
            None => move_to(here, "🛑stuck"@),
        }
    } else if hero.cooldown == 0 && has_sight(hero, enemy, map.walls) {
        Intent { shoots: true, at: position(enemy), comment: "🔫"@ }
    } else if hero.cooldown != 0 && threatened && seen is Some {
        move_to(seen->0, "↔️kite"@)
    } else if hero.cooldown != 0 && threatened && hidden is Some {
        move_to(hidden->0, "↔️kite-nlos"@)
    } else if hero.cooldown > 0 {
        if separation(hero, enemy) > PREFERRED_KITE_DIST {
            move_to(closer, "→aproach"@)
        } else {
            match seen {
                Some(spot) => move_to(spot, "↔️strafe"@),
                None => move_to(here, "🎯hold"@),
            }
        }
    } else {
        move_to(closer, "🔍hunt"@)
    }
}

/// Points as contracts speak of them.
pub open spec fn points_of(points: Seq<(i32, i32)>) -> Seq<(int, int)> {
    Seq::new(points.len(), |i: int| (points[i].0 as int, points[i].1 as int))
}

/// The sign of a difference.
fn sign_of_difference(a: i32, b: i32) -> (s: i64)
    ensures
        s == sign(a - b),
{
    if a > b {
        1
    } else if a < b {
        -1
    } else {
        0
    }
}

/// One more way out adds its spot to the good ones, if it is good.
proof fn lemma_kite_spots_next(hero: Hero, enemy: Hero, map: Arena, keep_los: bool, n: nat)
    ensures
        kite_spots(hero, enemy, map, keep_los, n + 1) == (if good_spot(
            kite_spot(hero, enemy, n as int),
            enemy,
            map,
            keep_los,
        ) {
            kite_spots(hero, enemy, map, keep_los, n).push(kite_spot(hero, enemy, n as int))
        } else {
            kite_spots(hero, enemy, map, keep_los, n)
        }),
{
    let spots = Seq::new(n + 1, |k: int| kite_spot(hero, enemy, k));
    assert(spots.drop_last() =~= Seq::new(n, |k: int| kite_spot(hero, enemy, k)));
    reveal(Seq::filter);
}

/// The points a hero may step to out of an enemy's line of fire, best first;
/// with `keep_los`, only those from which it still sees the enemy.
pub fn kite_positions(
    hero: &Hero,
    enemy: &Hero,
    walls: &[Wall],
    map_w: i32,
    map_h: i32,
    keep_los: bool,
) -> (positions: Vec<(i32, i32)>)
    ensures
        points_of(positions@) == kite_spots(
            *hero,
            *enemy,
            arena(walls@, map_w, map_h),
            keep_los,
            6,
        ),
{
    let dx: i64 = sign_of_difference(hero.x, enemy.x);
    let dy: i64 = sign_of_difference(hero.y, enemy.y);
    let candidates: [(i64, i64); 6] = [
        (-dy * 3, dx * 3),
        (dy * 3, -dx * 3),
        (dx * 3, dy * 3),
        (-dy * 3 + dx * 3, dx * 3 + dy * 3),
        (dy * 3 + dx * 3, -dx * 3 + dy * 3),
        (-dy * 6, dx * 6),
    ];
    let ghost map = arena(walls@, map_w, map_h);
    let mut positions: Vec<(i32, i32)> = Vec::new();
    proof {
        reveal(Seq::filter);
        assert(points_of(positions@) =~= kite_spots(*hero, *enemy, map, keep_los, 0));
    }
    for k in 0..6
        invariant
            map == arena(walls@, map_w, map_h),
            dx == sign(hero.x - enemy.x),
            dy == sign(hero.y - enemy.y),
            forall|i: int|
                0 <= i < 6 ==> ((#[trigger] candidates@[i]).0 as int, candidates@[i].1 as int)
                    == kite_offset(dx as int, dy as int, i),
            points_of(positions@) == kite_spots(*hero, *enemy, map, keep_los, k as nat),
    {
        let (pdx, pdy) = candidates[k];
        assert((candidates@[k as int].0 as int, candidates@[k as int].1 as int) == kite_offset(
            dx as int,
            dy as int,
            k as int,
        ));
        let sx: i64 = snap(hero.x as i64 + pdx);
        let sy: i64 = snap(hero.y as i64 + pdy);
        proof {
            lemma_kite_spots_next(*hero, *enemy, map, keep_los, k as nat);
        }
        let ghost before = positions@;
        if is_open(sx, sy, walls, map_w, map_h) {
            let px: i32 = sx as i32;
            let py: i32 = sy as i32;
            if !keep_los || has_line_of_sight(px, py, enemy.x, enemy.y, walls) {
                positions.push((px, py));
                assert(points_of(positions@) =~= points_of(before).push((sx as int, sy as int)));
            }
        }
    }
    positions
}

/// Chooses what a hero does about the enemy nearest to it.
///
/// In order of priority:
///   1. too close: retreat at once;
///   2. ready and in sight: always shoot;
///   3. not ready and threatened: step aside, keeping sight of the enemy if
///      possible;
///   4. cooling down and safe: keep the preferred distance, or strafe;
///   5. otherwise, as when ready without sight: go towards the enemy.
///
/// Where the hero would go without the enemy makes no difference to the choice.
pub fn choose_tactical_action(
    hero: &Hero,
    nearest_enemy: &Hero,
    walls: &[Wall],
    map_w: i32,
    map_h: i32,
    _fallback_dest: (i32, i32),
) -> (action: TacticalAction)
    ensures
        action@ == tactical_intent(*hero, *nearest_enemy, arena(walls@, map_w, map_h)),
{
    let d: i64 = wide_dist(hero.x, hero.y, nearest_enemy.x, nearest_enemy.y);
    let i_have_los: bool = has_line_of_sight(
        hero.x,
        hero.y,
        nearest_enemy.x,
        nearest_enemy.y,
        walls,
    );
    let enemy_threatens: bool = enemy_can_shoot_hero(nearest_enemy, hero, walls);

    if d < TOO_CLOSE_DIST as i64 {
        let retreats = kite_positions(hero, nearest_enemy, walls, map_w, map_h, false);
        if retreats.len() > 0 {
            return TacticalAction::Move {
                dest_x: retreats[0].0,
                dest_y: retreats[0].1,
                comment: "🏃retreat",
            };
        }
        return TacticalAction::Move { dest_x: hero.x, dest_y: hero.y, comment: "🛑stuck" };
    }
    if hero.cooldown == 0 && i_have_los {
        return TacticalAction::Shoot {
            target_x: nearest_enemy.x,
            target_y: nearest_enemy.y,
            comment: "🔫",
        };
    }
    if hero.cooldown != 0 && enemy_threatens {
        let kites = kite_positions(hero, nearest_enemy, walls, map_w, map_h, true);
        if kites.len() > 0 {
            return TacticalAction::Move {
                dest_x: kites[0].0,
                dest_y: kites[0].1,
                comment: "↔️kite",
            };
        }
        let kites_no_los = kite_positions(hero, nearest_enemy, walls, map_w, map_h, false);
        if kites_no_los.len() > 0 {
            return TacticalAction::Move {
                dest_x: kites_no_los[0].0,
                dest_y: kites_no_los[0].1,
                comment: "↔️kite-nlos",
            };
        }
    }
    if hero.cooldown > 0 {
        if d > PREFERRED_KITE_DIST as i64 {
            let (nx, ny) = bfs_next_step(
                hero.x,
                hero.y,
                nearest_enemy.x,
                nearest_enemy.y,
                walls,
                map_w,
                map_h,
            );
            return TacticalAction::Move { dest_x: nx, dest_y: ny, comment: "→aproach" };
        } else {
            let kites = kite_positions(hero, nearest_enemy, walls, map_w, map_h, true);
            if kites.len() > 0 {
                return TacticalAction::Move {
                    dest_x: kites[0].0,
                    dest_y: kites[0].1,
                    comment: "↔️strafe",
                };
            }
            return TacticalAction::Move { dest_x: hero.x, dest_y: hero.y, comment: "🎯hold" };
        }
    }
    let (nx, ny) = bfs_next_step(
        hero.x,
        hero.y,
        nearest_enemy.x,
        nearest_enemy.y,
        walls,
        map_w,
        map_h,
    );
    TacticalAction::Move { dest_x: nx, dest_y: ny, comment: "🔍hunt" }
}

/// Every way out that is offered ends on an open point and, if sight of the
/// enemy is to be kept, on one from which the enemy is seen.
pub proof fn law_kite_spots_are_good(hero: Hero, enemy: Hero, map: Arena, keep_los: bool)
    ensures
        forall|i: int|
            0 <= i < kite_spots(hero, enemy, map, keep_los, 6).len() ==> good_spot(
                #[trigger] kite_spots(hero, enemy, map, keep_los, 6)[i],
                enemy,
                map,
                keep_los,
            ),
{
    let all = Seq::new(6, |k: int| kite_spot(hero, enemy, k));
    let good = |p: (int, int)| good_spot(p, enemy, map, keep_los);
    assert forall|i: int| 0 <= i < all.filter(good).len() implies good(
        #[trigger] all.filter(good)[i],
    ) by {
        all.lemma_filter_pred(good, i);
    }
}

/// A hero shoots exactly when it is not too close, its weapon is ready and it
/// sees the enemy; and then it aims at the enemy.
pub proof fn law_shoots_exactly_when_able(hero: Hero, enemy: Hero, map: Arena)
    ensures
        tactical_intent(hero, enemy, map).shoots <==> {
            &&& separation(hero, enemy) >= TOO_CLOSE_DIST
            &&& hero.cooldown == 0
            &&& has_sight(hero, enemy, map.walls)
        },
        tactical_intent(hero, enemy, map).shoots ==> tactical_intent(hero, enemy, map).at
            == position(enemy),
{
}

/// A hero that moves sets out for an open point or stays where it is.
pub proof fn law_moves_onto_open_ground(hero: Hero, enemy: Hero, map: Arena)
    requires
        !tactical_intent(hero, enemy, map).shoots,
    ensures
        tactical_intent(hero, enemy, map).at == position(hero) || map.open(
            tactical_intent(hero, enemy, map).at,
        ),
{
    law_kite_spots_are_good(hero, enemy, map, true);
    law_kite_spots_are_good(hero, enemy, map, false);
    law_step_is_open(position(hero), snapped_point(position(enemy)), map);
}

/// A threatened hero whose weapon is not ready and that is not too close keeps
/// sight of the enemy wherever a way out allows it.
pub proof fn law_kiting_keeps_sight(hero: Hero, enemy: Hero, map: Arena)
    requires
        separation(hero, enemy) >= TOO_CLOSE_DIST,
        hero.cooldown != 0,
        threatens(enemy, hero, map.walls),
        kite_choice(hero, enemy, map, true) is Some,
    ensures
        good_spot(tactical_intent(hero, enemy, map).at, enemy, map, true),
{
    law_kite_spots_are_good(hero, enemy, map, true);
}

/// A hero that is ready and not too close, but does not see the enemy, goes
/// the next step of the way to it, threatened or not.
pub proof fn law_ready_hero_hunts(hero: Hero, enemy: Hero, map: Arena)
    requires
        separation(hero, enemy) >= TOO_CLOSE_DIST,
        hero.cooldown == 0,
        !has_sight(hero, enemy, map.walls),
    ensures
        !tactical_intent(hero, enemy, map).shoots,
        tactical_intent(hero, enemy, map).at == next_step(
            position(hero),
            snapped_point(position(enemy)),
            map,
        ),
{
}

/// The ways out to either side, near or far, are at right angles to the line
/// of fire.
pub proof fn law_side_steps_are_perpendicular(sx: int, sy: int)
    ensures
        sx * kite_offset(sx, sy, 0).0 + sy * kite_offset(sx, sy, 0).1 == 0,
        sx * kite_offset(sx, sy, 1).0 + sy * kite_offset(sx, sy, 1).1 == 0,
        sx * kite_offset(sx, sy, 5).0 + sy * kite_offset(sx, sy, 5).1 == 0,
{
    assert(sx * (-3 * sy) + sy * (3 * sx) == 0) by (nonlinear_arith);
    assert(sx * (3 * sy) + sy * (-3 * sx) == 0) by (nonlinear_arith);
    assert(sx * (-6 * sy) + sy * (6 * sx) == 0) by (nonlinear_arith);
}

/// An action is spoken of by what it does, the point it names and its comment.
pub proof fn law_action_models(x: i32, y: i32, comment: &'static str)
    ensures
        ({
            let shot = TacticalAction::Shoot { target_x: x, target_y: y, comment };
            &&& shot@.shoots
            &&& shot@.at.0 == x
            &&& shot@.at.1 == y
            &&& shot@.comment == comment@
        }),
        ({
            let step = TacticalAction::Move { dest_x: x, dest_y: y, comment };
            &&& !step@.shoots
            &&& step@.at.0 == x
            &&& step@.at.1 == y
            &&& step@.comment == comment@
        }),
{
}

/// How a hero stands to an enemy goes by their coordinates alone.
pub proof fn law_standing(hero: Hero, enemy: Hero, walls: Seq<Wall>)
    ensures
        position(hero) == (hero.x as int, hero.y as int),
        separation(hero, enemy) == king_distance(
            hero.x as int,
            hero.y as int,
            enemy.x as int,
            enemy.y as int,
        ),
        has_sight(hero, enemy, walls) == sees(
            hero.x as int,
            hero.y as int,
            enemy.x as int,
            enemy.y as int,
            walls,
        ),
{
}

/// The step straight away from an enemy: three units along each axis on which
/// the two are apart.
pub open spec fn step_back(hero: Hero, enemy: Hero) -> (int, int) {
    (
        if hero.x > enemy.x {
            3
        } else if hero.x < enemy.x {
            -3
        } else {
            0
        },
        if hero.y > enemy.y {
            3
        } else if hero.y < enemy.y {
            -3
        } else {
            0
        },
    )
}

/// The ways out are a step back turned by a quarter turn one way and the other,
/// the step back itself, each of the two turns together with it, and the first
/// turn twice. Their ends are snapped.
pub proof fn law_ways_out(hero: Hero, enemy: Hero)
    ensures
        ({
            let back = step_back(hero, enemy);
            let side = (-back.1, back.0);
            let from = (hero.x as int, hero.y as int);
            &&& kite_spot(hero, enemy, 0) == snapped_point((from.0 + side.0, from.1 + side.1))
            &&& kite_spot(hero, enemy, 1) == snapped_point((from.0 - side.0, from.1 - side.1))
            &&& kite_spot(hero, enemy, 2) == snapped_point((from.0 + back.0, from.1 + back.1))
            &&& kite_spot(hero, enemy, 3) == snapped_point(
                (from.0 + side.0 + back.0, from.1 + side.1 + back.1),
            )
            &&& kite_spot(hero, enemy, 4) == snapped_point(
                (from.0 - side.0 + back.0, from.1 - side.1 + back.1),
            )
            &&& kite_spot(hero, enemy, 5) == snapped_point(
                (from.0 + 2 * side.0, from.1 + 2 * side.1),
            )
        }),
{
}

/// The ways out depend on the side the enemy is on, not on how far away it is.
pub proof fn law_ways_out_go_by_direction(hero: Hero, enemy: Hero, farther: Hero, k: int)
    requires
        hero.x > enemy.x <==> hero.x > farther.x,
        hero.x < enemy.x <==> hero.x < farther.x,
        hero.y > enemy.y <==> hero.y > farther.y,
        hero.y < enemy.y <==> hero.y < farther.y,
        0 <= k < 6,
    ensures
        kite_spot(hero, enemy, k) == kite_spot(hero, farther, k),
{
}

/// A spot is good exactly if it is open and, where sight is to be kept, the
/// enemy is seen from it.
pub proof fn law_good_spot(p: (int, int), enemy: Hero, map: Arena)
    ensures
        good_spot(p, enemy, map, false) <==> map.open(p),
        good_spot(p, enemy, map, true) <==> map.open(p) && sees(
            p.0,
            p.1,
            enemy.x as int,
            enemy.y as int,
            map.walls,
        ),
{
}

/// Of the ways out, those that end on good spots are offered, in their order:
/// each one more that is looked at is added at the end, if it is good.
pub proof fn law_ways_out_in_order(hero: Hero, enemy: Hero, map: Arena, keep_los: bool, n: nat)
    ensures
        kite_spots(hero, enemy, map, keep_los, 0) == Seq::<(int, int)>::empty(),
        good_spot(kite_spot(hero, enemy, n as int), enemy, map, keep_los) ==> kite_spots(
            hero,
            enemy,
            map,
            keep_los,
            n + 1,
        ) == kite_spots(hero, enemy, map, keep_los, n).push(kite_spot(hero, enemy, n as int)),
        !good_spot(kite_spot(hero, enemy, n as int), enemy, map, keep_los) ==> kite_spots(
            hero,
            enemy,
            map,
            keep_los,
            n + 1,
        ) == kite_spots(hero, enemy, map, keep_los, n),
{
    lemma_kite_spots_next(hero, enemy, map, keep_los, n);
    reveal(Seq::filter);
    assert(kite_spots(hero, enemy, map, keep_los, 0) =~= Seq::empty());
}

/// The spot is where way out `k` ends; it is good, and no earlier way out ends
/// on a good spot.
pub open spec fn is_first_way_out(
    hero: Hero,
    enemy: Hero,
    map: Arena,
    keep_los: bool,
    k: int,
    spot: (int, int),
) -> bool {
    &&& 0 <= k < 6
    &&& spot == kite_spot(hero, enemy, k)
    &&& good_spot(spot, enemy, map, keep_los)
    &&& forall|j: int|
        0 <= j < k ==> !good_spot(#[trigger] kite_spot(hero, enemy, j), enemy, map, keep_los)
}

/// The way out chosen is the first of the six that ends on a good spot; none
/// is chosen only if none of them does.
pub proof fn law_first_way_out(hero: Hero, enemy: Hero, map: Arena, keep_los: bool)
    ensures
        kite_choice(hero, enemy, map, keep_los) matches Some(spot) ==> exists|k: int|
            is_first_way_out(hero, enemy, map, keep_los, k, spot),
        kite_choice(hero, enemy, map, keep_los) is None ==> forall|k: int|
            0 <= k < 6 ==> !good_spot(#[trigger] kite_spot(hero, enemy, k), enemy, map, keep_los),
{
    lemma_first_way_out(hero, enemy, map, keep_los, 6);
    if let Some(spot) = kite_choice(hero, enemy, map, keep_los) {
        assert(spot == kite_spots(hero, enemy, map, keep_los, 6)[0]);
        assert(exists|k: int| is_first_way_out(hero, enemy, map, keep_los, k, spot));
    }
}

/// The same of the first `n` ways out.
proof fn lemma_first_way_out(hero: Hero, enemy: Hero, map: Arena, keep_los: bool, n: nat)
    requires
        n <= 6,
    ensures
        ({
            let spots = kite_spots(hero, enemy, map, keep_los, n);
            &&& spots.len() > 0 ==> exists|k: int|
                is_first_way_out(hero, enemy, map, keep_los, k, spots[0])
            &&& spots.len() == 0 ==> forall|k: int|
                0 <= k < n ==> !good_spot(
                    #[trigger] kite_spot(hero, enemy, k),
                    enemy,
                    map,
                    keep_los,
                )
        }),
    decreases n,
{
    if n == 0 {
        law_ways_out_in_order(hero, enemy, map, keep_los, 0);
    } else {
        let m = (n - 1) as nat;
        let before = kite_spots(hero, enemy, map, keep_los, m);
        lemma_first_way_out(hero, enemy, map, keep_los, m);
        law_ways_out_in_order(hero, enemy, map, keep_los, m);
        let spots = kite_spots(hero, enemy, map, keep_los, n);
        assert(m + 1 == n);
        if before.len() > 0 {
            assert(spots[0] == before[0]);
            let k = choose|k: int| is_first_way_out(hero, enemy, map, keep_los, k, before[0]);
            assert(is_first_way_out(hero, enemy, map, keep_los, k, spots[0]));
        } else if good_spot(
            kite_spot(hero, enemy, m as int),
            enemy,
            map,
            keep_los,
        ) {
            assert(is_first_way_out(
                hero,
                enemy,
                map,
                keep_los,
                m as int,
                spots[0],
            ));
        }
    }
}

/// A hero less than nine units from the enemy, whatever its weapon, sets out
/// for the first way out that ends on an open point, and stays where it is only
/// if none of the six does.
pub proof fn law_too_close_retreats(hero: Hero, enemy: Hero, map: Arena)
    requires
        king_distance(hero.x as int, hero.y as int, enemy.x as int, enemy.y as int) < 9,
    ensures
        ({
            let intent = tactical_intent(hero, enemy, map);
            &&& !intent.shoots
            &&& if exists|k: int| 0 <= k < 6 && map.open(#[trigger] kite_spot(hero, enemy, k)) {
                &&& exists|k: int|
                    {
                        &&& 0 <= k < 6
                        &&& intent.at == #[trigger] kite_spot(hero, enemy, k)
                        &&& map.open(intent.at)
                        &&& forall|j: int|
                            0 <= j < k ==> !map.open(#[trigger] kite_spot(hero, enemy, j))
                    }
                &&& intent.comment == "🏃retreat"@
            } else {
                &&& intent.at == (hero.x as int, hero.y as int)
                &&& intent.comment == "🛑stuck"@
            }
        }),
{
    let intent = tactical_intent(hero, enemy, map);
    law_first_way_out(hero, enemy, map, false);
    if let Some(spot) = kite_choice(hero, enemy, map, false) {
        let k = choose|k: int| is_first_way_out(hero, enemy, map, false, k, spot);
        assert(is_first_way_out(hero, enemy, map, false, k, spot));
        assert(intent.at == kite_spot(hero, enemy, k));
        assert forall|j: int| 0 <= j < k implies !map.open(#[trigger] kite_spot(hero, enemy, j)) by {
            assert(!good_spot(kite_spot(hero, enemy, j), enemy, map, false));
        }
        assert(map.open(kite_spot(hero, enemy, k)));
    } else {
        assert forall|k: int| 0 <= k < 6 implies !map.open(#[trigger] kite_spot(hero, enemy, k)) by {
            assert(!good_spot(kite_spot(hero, enemy, k), enemy, map, false));
        }
    }
}

/// A retreat depends on where the two stand and on nothing else about them.
pub proof fn law_retreat_ignores_weapons(
    hero: Hero,
    enemy: Hero,
    hero2: Hero,
    enemy2: Hero,
    map: Arena,
)
    requires
        king_distance(hero.x as int, hero.y as int, enemy.x as int, enemy.y as int) < 9,
        hero2.x == hero.x,
        hero2.y == hero.y,
        enemy2.x == enemy.x,
        enemy2.y == enemy.y,
    ensures
        tactical_intent(hero, enemy, map) == tactical_intent(hero2, enemy2, map),
{
    assert forall|k: int| kite_spot(hero, enemy, k) == #[trigger] kite_spot(hero2, enemy2, k) by {}
    assert(Seq::new(6, |k: int| kite_spot(hero, enemy, k)) =~= Seq::new(
        6,
        |k: int| kite_spot(hero2, enemy2, k),
    ));
    let good = |p: (int, int)| good_spot(p, enemy, map, false);
    let good2 = |p: (int, int)| good_spot(p, enemy2, map, false);
    assert(good =~= good2);
}

/// A hero nine units or more away whose weapon is ready shoots at an enemy that
/// it sees.
pub proof fn law_ready_hero_shoots(hero: Hero, enemy: Hero, map: Arena)
    requires
        king_distance(hero.x as int, hero.y as int, enemy.x as int, enemy.y as int) >= 9,
        hero.cooldown == 0,
        sees(hero.x as int, hero.y as int, enemy.x as int, enemy.y as int, map.walls),
    ensures
        tactical_intent(hero, enemy, map).shoots,
        tactical_intent(hero, enemy, map).at == (enemy.x as int, enemy.y as int),
        tactical_intent(hero, enemy, map).comment == "🔫"@,
{
}

/// Nothing else makes a hero shoot.
pub proof fn law_shoots_for_no_other_reason(hero: Hero, enemy: Hero, map: Arena)
    requires
        tactical_intent(hero, enemy, map).shoots,
    ensures
        king_distance(hero.x as int, hero.y as int, enemy.x as int, enemy.y as int) >= 9,
        hero.cooldown == 0,
        sees(hero.x as int, hero.y as int, enemy.x as int, enemy.y as int, map.walls),
{
}

/// A hero nine units or more away whose weapon is not ready, under threat of an
/// enemy that is, takes the first way out from which it still sees the enemy;
/// failing that, the first open one.
pub proof fn law_threatened_hero_kites(hero: Hero, enemy: Hero, map: Arena, k: int)
    requires
        king_distance(hero.x as int, hero.y as int, enemy.x as int, enemy.y as int) >= 9,
        hero.cooldown != 0,
        enemy.cooldown == 0,
        sees(enemy.x as int, enemy.y as int, hero.x as int, hero.y as int, map.walls),
    ensures
        is_first_way_out(hero, enemy, map, true, k, kite_spot(hero, enemy, k)) ==> tactical_intent(
            hero,
            enemy,
            map,
        ) == (Intent { shoots: false, at: kite_spot(hero, enemy, k), comment: "↔️kite"@ }),
        is_first_way_out(hero, enemy, map, false, k, kite_spot(hero, enemy, k)) && (forall|j: int|
            0 <= j < 6 ==> !good_spot(#[trigger] kite_spot(hero, enemy, j), enemy, map, true))
            ==> tactical_intent(hero, enemy, map) == (Intent {
            shoots: false,
            at: kite_spot(hero, enemy, k),
            comment: "↔️kite-nlos"@,
        }),
{
    lemma_choice_is(hero, enemy, map, true, k);
    lemma_choice_is(hero, enemy, map, false, k);
    law_first_way_out(hero, enemy, map, true);
    if kite_choice(hero, enemy, map, true) is Some {
        let spot = kite_choice(hero, enemy, map, true)->0;
        let i = choose|i: int| is_first_way_out(hero, enemy, map, true, i, spot);
        assert(is_first_way_out(hero, enemy, map, true, i, spot));
        assert(good_spot(kite_spot(hero, enemy, i), enemy, map, true));
    }
}

/// There is one first way out.
proof fn lemma_choice_is(hero: Hero, enemy: Hero, map: Arena, keep_los: bool, k: int)
    ensures
        is_first_way_out(hero, enemy, map, keep_los, k, kite_spot(hero, enemy, k)) ==> kite_choice(
            hero,
            enemy,
            map,
            keep_los,
        ) == Some(kite_spot(hero, enemy, k)),
{
    if is_first_way_out(hero, enemy, map, keep_los, k, kite_spot(hero, enemy, k)) {
        law_first_way_out(hero, enemy, map, keep_los);
        let choice = kite_choice(hero, enemy, map, keep_los);
        assert(choice is Some) by {
            assert(good_spot(kite_spot(hero, enemy, k), enemy, map, keep_los));
        }
        let i = choose|i: int| is_first_way_out(hero, enemy, map, keep_los, i, choice->0);
        assert(is_first_way_out(hero, enemy, map, keep_los, i, choice->0));
        if i < k {
            assert(!good_spot(kite_spot(hero, enemy, i), enemy, map, keep_los));
        } else if k < i {
            assert(!good_spot(kite_spot(hero, enemy, k), enemy, map, keep_los));
        }
    }
}

/// A hero nine units or more away whose weapon cools down, and that no one
/// threatens or that has no way out, goes the next step of the way to an enemy
/// more than fifteen units off. Nearer than that, it takes the first way out
/// from which it sees the enemy, or stays.
pub proof fn law_cooling_hero_keeps_distance(hero: Hero, enemy: Hero, map: Arena, k: int)
    requires
        king_distance(hero.x as int, hero.y as int, enemy.x as int, enemy.y as int) >= 9,
        hero.cooldown > 0,
        enemy.cooldown != 0 || !sees(
            enemy.x as int,
            enemy.y as int,
            hero.x as int,
            hero.y as int,
            map.walls,
        ) || forall|j: int| 0 <= j < 6 ==> !map.open(#[trigger] kite_spot(hero, enemy, j)),
    ensures
        king_distance(hero.x as int, hero.y as int, enemy.x as int, enemy.y as int) > 15
            ==> tactical_intent(hero, enemy, map) == (Intent {
            shoots: false,
            at: next_step(
                (hero.x as int, hero.y as int),
                snapped_point((enemy.x as int, enemy.y as int)),
                map,
            ),
            comment: "→aproach"@,
        }),
        king_distance(hero.x as int, hero.y as int, enemy.x as int, enemy.y as int) <= 15
            && is_first_way_out(hero, enemy, map, true, k, kite_spot(hero, enemy, k))
            ==> tactical_intent(hero, enemy, map) == (Intent {
            shoots: false,
            at: kite_spot(hero, enemy, k),
            comment: "↔️strafe"@,
        }),
        king_distance(hero.x as int, hero.y as int, enemy.x as int, enemy.y as int) <= 15 && (
        forall|j: int|
            0 <= j < 6 ==> !good_spot(#[trigger] kite_spot(hero, enemy, j), enemy, map, true))
            ==> tactical_intent(hero, enemy, map) == (Intent {
            shoots: false,
            at: (hero.x as int, hero.y as int),
            comment: "🎯hold"@,
        }),
{
    lemma_choice_is(hero, enemy, map, true, k);
    lemma_way_out_is_open(hero, enemy, map, true);
    lemma_way_out_is_open(hero, enemy, map, false);
}

/// A way out that is chosen is one of the six and ends on a good, open spot.
proof fn lemma_way_out_is_open(hero: Hero, enemy: Hero, map: Arena, keep_los: bool)
    ensures
        kite_choice(hero, enemy, map, keep_los) is Some ==> exists|k: int|
            0 <= k < 6 && map.open(#[trigger] kite_spot(hero, enemy, k)) && good_spot(
                kite_spot(hero, enemy, k),
                enemy,
                map,
                keep_los,
            ),
{
    law_first_way_out(hero, enemy, map, keep_los);
    if let Some(spot) = kite_choice(hero, enemy, map, keep_los) {
        let k = choose|k: int| is_first_way_out(hero, enemy, map, keep_los, k, spot);
        assert(is_first_way_out(hero, enemy, map, keep_los, k, spot));
        assert(map.open(kite_spot(hero, enemy, k)));
    }
}

/// A hero nine units or more away that neither shoots nor cools down goes the
/// next step of the way to the enemy, if its weapon is ready, if no one
/// threatens it or if it has no way out.
pub proof fn law_hero_hunts(hero: Hero, enemy: Hero, map: Arena)
    requires
        king_distance(hero.x as int, hero.y as int, enemy.x as int, enemy.y as int) >= 9,
        hero.cooldown <= 0,
        hero.cooldown == 0 ==> !sees(
            hero.x as int,
            hero.y as int,
            enemy.x as int,
            enemy.y as int,
            map.walls,
        ),
        hero.cooldown == 0 || enemy.cooldown != 0 || !sees(
            enemy.x as int,
            enemy.y as int,
            hero.x as int,
            hero.y as int,
            map.walls,
        ) || forall|j: int| 0 <= j < 6 ==> !map.open(#[trigger] kite_spot(hero, enemy, j)),
    ensures
        tactical_intent(hero, enemy, map) == (Intent {
            shoots: false,
            at: next_step(
                (hero.x as int, hero.y as int),
                snapped_point((enemy.x as int, enemy.y as int)),
                map,
            ),
            comment: "🔍hunt"@,
        }),
{
    lemma_way_out_is_open(hero, enemy, map, true);
    lemma_way_out_is_open(hero, enemy, map, false);
}

/// A list of points is spoken of point by point.
pub proof fn law_points_of(points: Seq<(i32, i32)>)
    ensures
        points_of(points).len() == points.len(),
        forall|i: int|
            0 <= i < points.len() ==> (#[trigger] points_of(points)[i]).0 == points[i].0
                && points_of(points)[i].1 == points[i].1,
{
}

} // verus!
