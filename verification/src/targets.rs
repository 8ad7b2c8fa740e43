//! Points worth going to.
use crate::grid::{
    arena, first_open, gap, is_open, law_first_open, law_snap_is_stable, lemma_first_open,
    magnitude, snap, snap_to_grid, snapped, snapped_point, Arena,
};
use crate::protocol::{Hero, Wall};
use vstd::prelude::*;

verus! {

/// Half of a number, towards zero.
pub open spec fn half(v: int) -> int {
    if v < 0 {
        -((-v) / 2)
    } else {
        v / 2
    }
}

/// How many rows of blocks fit into a map of that height.
pub open spec fn rows(map_h: int) -> nat {
    if map_h < 0 {
        0
    } else {
        (map_h / 3) as nat
    }
}

/// The points of a column from the bottom of the map upwards.
pub open spec fn column_up(x: int, map_h: int) -> Seq<(int, int)> {
    Seq::new(rows(map_h), |t: int| snapped_point((x, map_h - 2 - 3 * t)))
}

/// The points of a column from the top of the map downwards.
pub open spec fn column_down(x: int, map_h: int) -> Seq<(int, int)> {
    Seq::new(rows(map_h), |t: int| snapped_point((x, 1 + 3 * t)))
}

/// The first open point, or the middle of the column where none is open.
pub open spec fn column_target(spots: Seq<(int, int)>, x: int, map: Arena) -> (int, int) {
    match first_open(spots, map) {
        Some(p) => p,
        None => snapped_point((x, half(map.height))),
    }
}

/// The offsets tried around a rally point: none, then one step either way,
/// two steps either way, and so on up to four.
pub open spec fn rally_offset(k: int) -> int {
    if k % 2 == 0 {
        -3 * (k / 2)
    } else {
        3 * ((k + 1) / 2)
    }
}

/// The points tried for a rally around a snapped centre: row by row, the
/// nearest rows first, and the nearest points of each row first.
pub open spec fn rally_spots(centre: (int, int)) -> Seq<(int, int)> {
    Seq::new(
        81,
        |n: int| snapped_point((centre.0 + rally_offset(n % 9), centre.1 + rally_offset(n / 9))),
    )
}

/// The first open point around the snapped spawn point, or that point itself.
pub open spec fn rally_point(spawn: (int, int), map: Arena) -> (int, int) {
    match first_open(rally_spots(snapped_point(spawn)), map) {
        Some(p) => p,
        None => snapped_point(spawn),
    }
}

/// The hero is within `threshold` of the point in both coordinates.
pub open spec fn near(hero: Hero, tx: int, ty: int, threshold: int) -> bool {
    magnitude(hero.x - tx) <= threshold && magnitude(hero.y - ty) <= threshold
}

/// The lowest open point in the column of a spawn point.
pub fn find_bottom_target(spawn_x: i32, map_h: i32, walls: &[Wall], map_w: i32) -> (p: (i32, i32))
    requires
        spawn_x > i32::MIN,
    ensures
        (p.0 as int, p.1 as int) == column_target(
            column_up(spawn_x as int, map_h as int),
            spawn_x as int,
            arena(walls@, map_w, map_h),
        ),
{
    let ghost map = arena(walls@, map_w, map_h);
    let ghost spots = column_up(spawn_x as int, map_h as int);
    let mut y: i64 = map_h as i64 - 2;
    let ghost mut t: int = 0;
    let sx: i64 = snap(spawn_x as i64);
    while y >= 1
        invariant
            map == arena(walls@, map_w, map_h),
            spots == column_up(spawn_x as int, map_h as int),
            sx == snapped(spawn_x as int),
            0 <= t <= spots.len(),
            y == map_h - 2 - 3 * t,
            forall|i: int| 0 <= i < t ==> !map.open(#[trigger] spots[i]),
        decreases y + 3,
    {
        let sy: i64 = snap(y);
        assert(3 * t + 3 <= map_h);
        assert(t < spots.len());
        assert(spots[t] == (sx as int, sy as int));
        if is_open(sx, sy, walls, map_w, map_h) {
            proof {
                lemma_first_open(spots, map, t);
            }
            return (sx as i32, sy as i32);
        }
        y = y - 3;
        proof {
            t = t + 1;
        }
    }
    proof {
        lemma_first_open(spots, map, t);
    }
    snap_to_grid(spawn_x, map_h / 2)
}

/// The highest open point in the column of a spawn point.
pub fn find_top_target(spawn_x: i32, map_h: i32, walls: &[Wall], map_w: i32) -> (p: (i32, i32))
    requires
        spawn_x > i32::MIN,
    ensures
        (p.0 as int, p.1 as int) == column_target(
            column_down(spawn_x as int, map_h as int),
            spawn_x as int,
            arena(walls@, map_w, map_h),
        ),
{
    let ghost map = arena(walls@, map_w, map_h);
    let ghost spots = column_down(spawn_x as int, map_h as int);
    let mut y: i64 = 1;
    let ghost mut t: int = 0;
    let sx: i64 = snap(spawn_x as i64);
    while y < map_h as i64 - 1
        invariant
            map == arena(walls@, map_w, map_h),
            spots == column_down(spawn_x as int, map_h as int),
            sx == snapped(spawn_x as int),
            0 <= t <= spots.len(),
            y == 1 + 3 * t,
            y <= 0x8000_0003,
            forall|i: int| 0 <= i < t ==> !map.open(#[trigger] spots[i]),
        decreases map_h + 3 - y,
    {
        let sy: i64 = snap(y);
        assert(3 * t + 3 <= map_h);
        assert(t < spots.len());
        assert(spots[t] == (sx as int, sy as int));
        if is_open(sx, sy, walls, map_w, map_h) {
            proof {
                lemma_first_open(spots, map, t);
            }
            return (sx as i32, sy as i32);
        }
        y = y + 3;
        proof {
            t = t + 1;
        }
    }
    proof {
        lemma_first_open(spots, map, t);
    }
    snap_to_grid(spawn_x, map_h / 2)
}

/// The offsets tried around a rally point, in order.
fn rally_offsets() -> (offsets: [i64; 9])
    ensures
        forall|k: int| 0 <= k < 9 ==> #[trigger] offsets@[k] == rally_offset(k),
{
    [0, 3, -3, 6, -6, 9, -9, 12, -12]
}

/// A point near the spawn point, at most four steps away in either direction,
/// where the heroes can gather.
pub fn find_rally_point(map_w: i32, map_h: i32, walls: &[Wall], spawn_x: i32, spawn_y: i32) -> (p: (
    i32,
    i32,
))
    requires
        spawn_x > i32::MIN,
        spawn_y > i32::MIN,
    ensures
        (p.0 as int, p.1 as int) == rally_point(
            (spawn_x as int, spawn_y as int),
            arena(walls@, map_w, map_h),
        ),
{
    let (base_x, base_y) = snap_to_grid(spawn_x, spawn_y);
    let offsets: [i64; 9] = rally_offsets();
    let ghost map = arena(walls@, map_w, map_h);
    let ghost spots = rally_spots((base_x as int, base_y as int));
    for row in 0..9
        invariant
            map == arena(walls@, map_w, map_h),
            (base_x as int, base_y as int) == snapped_point((spawn_x as int, spawn_y as int)),
            spots == rally_spots((base_x as int, base_y as int)),
            forall|k: int| 0 <= k < 9 ==> #[trigger] offsets@[k] == rally_offset(k),
            forall|i: int| 0 <= i < 9 * row ==> !map.open(#[trigger] spots[i]),
    {
        let dy: i64 = offsets[row];
        for column in 0..9
            invariant
                map == arena(walls@, map_w, map_h),
                (base_x as int, base_y as int) == snapped_point((spawn_x as int, spawn_y as int)),
                spots == rally_spots((base_x as int, base_y as int)),
                forall|k: int| 0 <= k < 9 ==> #[trigger] offsets@[k] == rally_offset(k),
                0 <= row < 9,
                dy == rally_offset(row as int),
                forall|i: int| 0 <= i < 9 * row + column ==> !map.open(#[trigger] spots[i]),
        {
            let dx: i64 = offsets[column];
            let sx: i64 = snap(base_x as i64 + dx);
            let sy: i64 = snap(base_y as i64 + dy);
            let ghost n = 9 * row as int + column as int;
            assert(n % 9 == column && n / 9 == row);
            assert(spots[n] == (sx as int, sy as int));
            if is_open(sx, sy, walls, map_w, map_h) {
                proof {
                    lemma_first_open(spots, map, n);
                }
                return (sx as i32, sy as i32);
            }
        }
    }
    proof {
        lemma_first_open(spots, map, 81);
    }
    (base_x, base_y)
}

/// Whether every one of the heroes is near the point.
pub fn all_heroes_near(heroes: &[&Hero], tx: i32, ty: i32, threshold: i32) -> (r: bool)
    ensures
        r == forall|i: int|
            0 <= i < heroes@.len() ==> near(
                *(#[trigger] heroes@[i]),
                tx as int,
                ty as int,
                threshold as int,
            ),
{
    for i in 0..heroes.len()
        invariant
            forall|j: int|
                0 <= j < i ==> near(
                    *(#[trigger] heroes@[j]),
                    tx as int,
                    ty as int,
                    threshold as int,
                ),
    {
        let h: &Hero = heroes[i];
        if gap(h.x, tx) > threshold as i64 || gap(h.y, ty) > threshold as i64 {
            assert(!near(*heroes@[i as int], tx as int, ty as int, threshold as int));
            return false;
        }
    }
    true
}

/// A column target is open, unless the whole column is closed.
pub proof fn law_column_target_open(spots: Seq<(int, int)>, x: int, map: Arena)
    ensures
        map.open(column_target(spots, x, map)) || forall|i: int|
            0 <= i < spots.len() ==> !map.open(#[trigger] spots[i]),
{
    law_first_open(spots, map);
}

/// A rally point is open, unless everything tried is closed; and where the
/// snapped spawn point itself is open, it is the rally point.
pub proof fn law_rally_point_open(spawn: (int, int), map: Arena)
    requires
        spawn.0 >= 0,
        spawn.1 >= 0,
    ensures
        map.open(rally_point(spawn, map)) || forall|i: int|
            0 <= i < 81 ==> !map.open(#[trigger] rally_spots(snapped_point(spawn))[i]),
        map.open(snapped_point(spawn)) ==> rally_point(spawn, map) == snapped_point(spawn),
{
    let spots = rally_spots(snapped_point(spawn));
    law_first_open(spots, map);
    law_snap_is_stable(spawn.0);
    law_snap_is_stable(spawn.1);
    assert(spots[0] == snapped_point(spawn));
    lemma_first_open(spots, map, 0);
}

/// Half of a number and half of its opposite are opposite, and twice the half
/// falls short of the number by one at most.
pub proof fn law_half(v: int)
    ensures
        half(-v) == -half(v),
        v >= 0 ==> 2 * half(v) <= v <= 2 * half(v) + 1,
{
}

/// The lowest row is two units above the lower edge of the map, and each
/// further row three units higher, as far as the first row of the map. The
/// bottom target is the open point in the lowest of these rows that has one in
/// the column; only where none has is it the middle of the column.
pub proof fn law_bottom_target(x: int, map: Arena, t: int)
    requires
        0 <= t,
        map.height - 2 - 3 * t >= 1,
        map.open(snapped_point((x, map.height - 2 - 3 * t))),
    ensures
        ({
            let p = column_target(column_up(x, map.height), x, map);
            &&& map.open(p)
            &&& exists|s: int|
                {
                    &&& 0 <= s <= t
                    &&& p == #[trigger] row_from_below(x, map.height, s)
                    &&& forall|r: int|
                        0 <= r < s ==> !map.open(#[trigger] row_from_below(x, map.height, r))
                }
        }),
{
    let spots = column_up(x, map.height);
    law_first_open(spots, map);
    assert(t < spots.len());
    assert(spots[t] == row_from_below(x, map.height, t));
    assert(map.open(spots[t]));
    let p = first_open(spots, map)->0;
    let s = choose|s: int|
        0 <= s < spots.len() && #[trigger] spots[s] == p && forall|j: int|
            0 <= j < s ==> !map.open(#[trigger] spots[j]);
    assert(spots[s] == row_from_below(x, map.height, s));
    assert forall|r: int| 0 <= r < s implies !map.open(
        #[trigger] row_from_below(x, map.height, r),
    ) by {
        assert(spots[r] == row_from_below(x, map.height, r));
    }
}

/// The point of a column in row `t` from below.
pub open spec fn row_from_below(x: int, map_h: int, t: int) -> (int, int) {
    snapped_point((x, map_h - 2 - 3 * t))
}

/// The point of a column in row `t` from above.
pub open spec fn row_from_above(x: int, t: int) -> (int, int) {
    snapped_point((x, 1 + 3 * t))
}

/// The rows counted from above begin one unit from the upper edge. The top
/// target is the open point in the highest row that has one in the column;
/// only where none has is it the middle of the column.
pub proof fn law_top_target(x: int, map: Arena, t: int)
    requires
        0 <= t,
        1 + 3 * t < map.height - 1,
        map.open(snapped_point((x, 1 + 3 * t))),
    ensures
        ({
            let p = column_target(column_down(x, map.height), x, map);
            &&& map.open(p)
            &&& exists|s: int|
                {
                    &&& 0 <= s <= t
                    &&& p == #[trigger] row_from_above(x, s)
                    &&& forall|r: int| 0 <= r < s ==> !map.open(#[trigger] row_from_above(x, r))
                }
        }),
{
    let spots = column_down(x, map.height);
    law_first_open(spots, map);
    assert(t < spots.len());
    assert(spots[t] == row_from_above(x, t));
    assert(map.open(spots[t]));
    let p = first_open(spots, map)->0;
    let s = choose|s: int|
        0 <= s < spots.len() && #[trigger] spots[s] == p && forall|j: int|
            0 <= j < s ==> !map.open(#[trigger] spots[j]);
    assert(spots[s] == row_from_above(x, s));
    assert forall|r: int| 0 <= r < s implies !map.open(#[trigger] row_from_above(x, r)) by {
        assert(spots[r] == row_from_above(x, r));
    }
}

/// Where no row of the column is open, both targets are the middle of the
/// column, snapped.
pub proof fn law_closed_column(x: int, map: Arena)
    ensures
        (forall|t: int|
            0 <= t && map.height - 2 - 3 * t >= 1 ==> !map.open(
                #[trigger] row_from_below(x, map.height, t),
            )) ==> column_target(column_up(x, map.height), x, map) == snapped_point(
            (x, half(map.height)),
        ),
        (forall|t: int|
            0 <= t && 1 + 3 * t < map.height - 1 ==> !map.open(#[trigger] row_from_above(x, t)))
            ==> column_target(column_down(x, map.height), x, map) == snapped_point(
            (x, half(map.height)),
        ),
{
    let up = column_up(x, map.height);
    let down = column_down(x, map.height);
    law_first_open(up, map);
    law_first_open(down, map);
    if let Some(p) = first_open(up, map) {
        let s = choose|s: int| 0 <= s < up.len() && #[trigger] up[s] == p;
        assert(up[s] == row_from_below(x, map.height, s));
    }
    if let Some(p) = first_open(down, map) {
        let s = choose|s: int| 0 <= s < down.len() && #[trigger] down[s] == p;
        assert(down[s] == row_from_above(x, s));
    }
}

/// The offsets around a rally point are none, then for one step to four the
/// step forward and the step back.
pub proof fn law_rally_offsets(m: int)
    requires
        1 <= m <= 4,
    ensures
        rally_offset(0) == 0,
        rally_offset(2 * m - 1) == 3 * m,
        rally_offset(2 * m) == -3 * m,
{
}

/// The point tried in that row and column around a centre.
pub open spec fn rally_try(centre: (int, int), row: int, column: int) -> (int, int) {
    snapped_point((centre.0 + rally_offset(column), centre.1 + rally_offset(row)))
}

/// Whenever a point at most four steps from the snapped spawn point, along
/// either axis, is open, the rally point is an open one of them; and all the
/// points of earlier rows, and the earlier ones of its own row, are closed.
pub proof fn law_rally_point_is_first(spawn: (int, int), map: Arena, row: int, column: int)
    requires
        0 <= row < 9,
        0 <= column < 9,
        map.open(rally_try(snapped_point(spawn), row, column)),
    ensures
        ({
            let p = rally_point(spawn, map);
            let centre = snapped_point(spawn);
            &&& map.open(p)
            &&& exists|r: int, c: int|
                {
                    &&& 0 <= r < 9
                    &&& 0 <= c < 9
                    &&& p == #[trigger] rally_try(centre, r, c)
                    &&& forall|r2: int, c2: int|
                        0 <= r2 < 9 && 0 <= c2 < 9 && (r2 < r || r2 == r && c2 < c) ==> !map.open(
                            #[trigger] rally_try(centre, r2, c2),
                        )
                }
        }),
{
    let centre = snapped_point(spawn);
    let spots = rally_spots(centre);
    law_first_open(spots, map);
    lemma_rally_spot(centre, row, column);
    assert(map.open(spots[9 * row + column]));
    let p = first_open(spots, map)->0;
    let i = choose|i: int|
        0 <= i < spots.len() && #[trigger] spots[i] == p && forall|j: int|
            0 <= j < i ==> !map.open(#[trigger] spots[j]);
    let r = i / 9;
    let c = i % 9;
    lemma_rally_spot(centre, r, c);
    assert forall|r2: int, c2: int|
        0 <= r2 < 9 && 0 <= c2 < 9 && (r2 < r || r2 == r && c2 < c) implies !map.open(
        #[trigger] rally_try(centre, r2, c2),
    ) by {
        lemma_rally_spot(centre, r2, c2);
        assert(!map.open(spots[9 * r2 + c2]));
    }
    assert(p == rally_try(centre, r, c));
}

/// The points tried around a centre, by row and column.
proof fn lemma_rally_spot(centre: (int, int), row: int, column: int)
    requires
        0 <= row < 9,
        0 <= column < 9,
    ensures
        rally_spots(centre)[9 * row + column] == rally_try(centre, row, column),
{
    let n = 9 * row + column;
    assert(n % 9 == column && n / 9 == row);
}

/// Where none of the points tried is open, the rally point is the snapped
/// spawn point.
pub proof fn law_no_rally_point(spawn: (int, int), map: Arena)
    requires
        forall|row: int, column: int|
            0 <= row < 9 && 0 <= column < 9 ==> !map.open(
                #[trigger] rally_try(snapped_point(spawn), row, column),
            ),
    ensures
        rally_point(spawn, map) == snapped_point(spawn),
{
    let spots = rally_spots(snapped_point(spawn));
    law_first_open(spots, map);
    if let Some(p) = first_open(spots, map) {
        let i = choose|i: int| 0 <= i < spots.len() && #[trigger] spots[i] == p;
        lemma_rally_spot(snapped_point(spawn), i / 9, i % 9);
    }
}

/// A hero is near a point exactly if neither of its coordinates is farther off
/// than the threshold.
pub proof fn law_near(hero: Hero, tx: int, ty: int, threshold: int)
    ensures
        near(hero, tx, ty, threshold) <==> {
            &&& tx - threshold <= hero.x <= tx + threshold
            &&& ty - threshold <= hero.y <= ty + threshold
        },
{
}

} // verus!
