//! Cells, walls and distances.
//!
//! The map is walked in steps of three units, so a hero or a wall covers a
//! three by three block and is named by the centre of that block. All sums are
//! taken in `i64`, where no sum of two coordinates overflows.
use crate::protocol::Wall;
use vstd::prelude::*;

verus! {

/// The absolute value.
pub open spec fn magnitude(v: int) -> int {
    if v < 0 {
        -v
    } else {
        v
    }
}

/// The larger of two numbers.
pub open spec fn larger(a: int, b: int) -> int {
    if a < b {
        b
    } else {
        a
    }
}

/// The map as the pathfinder sees it: its size and its walls.
pub struct Arena {
    pub walls: Seq<Wall>,
    pub width: int,
    pub height: int,
}

/// The point keeps one unit of distance from the edges of a map of that size.
pub open spec fn inside(x: int, y: int, width: int, height: int) -> bool {
    1 <= x < width - 1 && 1 <= y < height - 1
}

/// A block centred on the point would share a tile with the wall.
pub open spec fn wall_touches(wall: Wall, x: int, y: int) -> bool {
    magnitude(x - wall.x) < 3 && magnitude(y - wall.y) < 3
}

/// A block centred on the point would share a tile with one of the walls.
pub open spec fn walled(x: int, y: int, walls: Seq<Wall>) -> bool {
    exists|i: int| 0 <= i < walls.len() && wall_touches(#[trigger] walls[i], x, y)
}

impl Arena {
    /// A hero may stand on the point.
    pub open spec fn open(self, p: (int, int)) -> bool {
        inside(p.0, p.1, self.width, self.height) && !walled(p.0, p.1, self.walls)
    }
}

/// The arena of a map given by its walls and its size.
pub open spec fn arena(walls: Seq<Wall>, map_w: i32, map_h: i32) -> Arena {
    Arena { walls, width: map_w as int, height: map_h as int }
}

/// The centre that a coordinate is moved to. From zero up the centres are
/// one, four, seven and so on, one in each block of three; below zero a
/// multiple of three moves up by one and every other number down by one.
pub open spec fn snapped(v: int) -> int {
    if v >= 0 {
        3 * (v / 3) + 1
    } else if v % 3 == 0 {
        v + 1
    } else {
        v - 1
    }
}

/// Both coordinates of a point, snapped.
pub open spec fn snapped_point(p: (int, int)) -> (int, int) {
    (snapped(p.0), snapped(p.1))
}

/// The first of the points, in order, that a hero may stand on.
pub open spec fn first_open(spots: Seq<(int, int)>, map: Arena) -> Option<(int, int)>
    decreases spots.len(),
{
    if spots.len() == 0 {
        None
    } else if map.open(spots[0]) {
        Some(spots[0])
    } else {
        first_open(spots.drop_first(), map)
    }
}

/// Where every earlier point is closed, the first open one is the next, if it
/// is open.
pub(crate) proof fn lemma_first_open(spots: Seq<(int, int)>, map: Arena, n: int)
    requires
        0 <= n <= spots.len(),
        forall|i: int| 0 <= i < n ==> !map.open(#[trigger] spots[i]),
    ensures
        n < spots.len() && map.open(spots[n]) ==> first_open(spots, map) == Some(spots[n]),
        n == spots.len() ==> first_open(spots, map) is None,
    decreases n,
{
    if n > 0 {
        let rest = spots.drop_first();
        assert(!map.open(spots[0]));
        assert forall|i: int| 0 <= i < n - 1 implies !map.open(#[trigger] rest[i]) by {
            assert(rest[i] == spots[i + 1]);
        }
        lemma_first_open(rest, map, n - 1);
    }
}

/// The Chebyshev distance: how many king's moves apart two points are.
pub open spec fn king_distance(ax: int, ay: int, bx: int, by: int) -> int {
    larger(magnitude(ax - bx), magnitude(ay - by))
}

/// How far apart two coordinates are.
pub(crate) fn gap(a: i32, b: i32) -> (d: i64)
    ensures
        d == magnitude(a - b),
        0 <= d <= 0xffff_ffff,
{
    let d: i64 = a as i64 - b as i64;
    if d < 0 {
        -d
    } else {
        d
    }
}

/// Whether the point lies inside the map, one unit away from its edges.
pub fn in_bounds(x: i32, y: i32, map_w: i32, map_h: i32) -> (r: bool)
    ensures
        r == inside(x as int, y as int, map_w as int, map_h as int),
{
    x >= 1 && y >= 1 && (x as i64) < map_w as i64 - 1 && (y as i64) < map_h as i64 - 1
}

/// Whether a block centred on the point would overlap a wall.
pub fn overlaps_wall(cx: i32, cy: i32, walls: &[Wall]) -> (r: bool)
    ensures
        r == walled(cx as int, cy as int, walls@),
{
    for i in 0..walls.len()
        invariant
            forall|j: int| 0 <= j < i ==> !wall_touches(#[trigger] walls@[j], cx as int, cy as int),
    {
        if gap(cx, walls[i].x) < 3 && gap(cy, walls[i].y) < 3 {
            assert(wall_touches(walls@[i as int], cx as int, cy as int));
            return true;
        }
    }
    false
}

/// Whether a hero may stand on the point. The coordinates may lie beyond the
/// range of the map's own.
pub(crate) fn is_open(x: i64, y: i64, walls: &[Wall], map_w: i32, map_h: i32) -> (r: bool)
    ensures
        r == arena(walls@, map_w, map_h).open((x as int, y as int)),
        r ==> 1 <= x <= i32::MAX && 1 <= y <= i32::MAX,
{
    if x < 1 || y < 1 || x > i32::MAX as i64 || y > i32::MAX as i64 {
        return false;
    }
    let cx: i32 = x as i32;
    let cy: i32 = y as i32;
    in_bounds(cx, cy, map_w, map_h) && !overlaps_wall(cx, cy, walls)
}

/// Moves one coordinate to the centre of its block.
pub(crate) fn snap(v: i64) -> (s: i64)
    requires
        i64::MIN < v < i64::MAX,
    ensures
        s == snapped(v as int),
{
    let r: i64 = v % 3;
    if r == 1 {
        v
    } else if r == 0 {
        v + 1
    } else {
        v - 1
    }
}

/// Moves a point to the centre of its block. The smallest coordinate has no
/// centre that `i32` can hold.
pub fn snap_to_grid(x: i32, y: i32) -> (p: (i32, i32))
    requires
        x > i32::MIN,
        y > i32::MIN,
    ensures
        p.0 == snapped(x as int),
        p.1 == snapped(y as int),
{
    (snap(x as i64) as i32, snap(y as i64) as i32)
}

/// The Chebyshev distance between two points, where it fits.
pub fn dist(ax: i32, ay: i32, bx: i32, by: i32) -> (d: i32)
    requires
        king_distance(ax as int, ay as int, bx as int, by as int) <= i32::MAX,
    ensures
        d == king_distance(ax as int, ay as int, bx as int, by as int),
{
    wide_dist(ax, ay, bx, by) as i32
}

/// The Chebyshev distance between any two points.
pub(crate) fn wide_dist(ax: i32, ay: i32, bx: i32, by: i32) -> (d: i64)
    ensures
        d == king_distance(ax as int, ay as int, bx as int, by as int),
{
    let dx: i64 = gap(ax, bx);
    let dy: i64 = gap(ay, by);
    if dx < dy {
        dy
    } else {
        dx
    }
}

/// Snapping moves a coordinate by one at most.
pub proof fn law_snap_is_near(v: int)
    ensures
        magnitude(snapped(v) - v) <= 1,
{
}

/// From zero up, a snapped coordinate is one more than a multiple of three,
/// and snapping it again leaves it there.
pub proof fn law_snap_is_stable(v: int)
    requires
        v >= 0,
    ensures
        snapped(v) >= 1,
        snapped(v) % 3 == 1,
        snapped(snapped(v)) == snapped(v),
{
}

/// The first open point, if there is one, is open and one of the points, and
/// every point before it is closed; if there is none, all of them are closed.
pub proof fn law_first_open(spots: Seq<(int, int)>, map: Arena)
    ensures
        first_open(spots, map) matches Some(p) ==> map.open(p) && spots.contains(p) && exists|
            i: int,
        |
            0 <= i < spots.len() && #[trigger] spots[i] == p && forall|j: int|
                0 <= j < i ==> !map.open(#[trigger] spots[j]),
        first_open(spots, map) is None ==> forall|i: int|
            0 <= i < spots.len() ==> !map.open(#[trigger] spots[i]),
    decreases spots.len(),
{
    if spots.len() > 0 {
        let rest = spots.drop_first();
        if map.open(spots[0]) {
            assert(spots.contains(spots[0]));
            assert(spots[0] == first_open(spots, map)->0);
        } else {
            law_first_open(rest, map);
            if first_open(rest, map) is Some {
                let i = choose|i: int|
                    0 <= i < rest.len() && #[trigger] rest[i] == first_open(rest, map)->0 && forall|
                        j: int,
                    |
                        0 <= j < i ==> !map.open(#[trigger] rest[j]);
                assert(spots[i + 1] == rest[i]);
                assert forall|j: int| 0 <= j < i + 1 implies !map.open(#[trigger] spots[j]) by {
                    if j > 0 {
                        assert(rest[j - 1] == spots[j]);
                    }
                }
            } else {
                assert forall|i: int| 0 <= i < spots.len() implies !map.open(#[trigger] spots[i]) by {
                    if i > 0 {
                        assert(rest[i - 1] == spots[i]);
                    }
                }
            }
        }
    }
}

/// Two points are as far apart one way as the other, and no distance is
/// longer than a detour.
pub proof fn law_king_distance(ax: int, ay: int, bx: int, by: int, cx: int, cy: int)
    ensures
        king_distance(ax, ay, bx, by) == king_distance(bx, by, ax, ay),
        king_distance(ax, ay, bx, by) == 0 <==> ax == bx && ay == by,
        king_distance(ax, ay, cx, cy) <= king_distance(ax, ay, bx, by) + king_distance(
            bx,
            by,
            cx,
            cy,
        ),
{
}

/// The distance covers the difference of the points in either coordinate, and
/// is one of the two.
pub proof fn law_king_distance_is_tight(ax: int, ay: int, bx: int, by: int)
    ensures
        ({
            let d = king_distance(ax, ay, bx, by);
            &&& -d <= ax - bx <= d
            &&& -d <= ay - by <= d
            &&& d == ax - bx || d == bx - ax || d == ay - by || d == by - ay
        }),
{
}

/// Snapping a point moves each coordinate on its own: from zero up to the
/// nearest number that is one more than a multiple of three.
pub proof fn law_snap_point(p: (int, int))
    ensures
        -1 <= snapped_point(p).0 - p.0 <= 1,
        -1 <= snapped_point(p).1 - p.1 <= 1,
        p.0 >= 0 ==> snapped_point(p).0 % 3 == 1,
        p.1 >= 0 ==> snapped_point(p).1 % 3 == 1,
        snapped_point(p) == (snapped(p.0), snapped(p.1)),
{
}

/// Below zero no coordinate stays: the multiples of three move up by one, the
/// others down by one. A block further down, the same happens.
pub proof fn law_snap_below_zero(v: int)
    requires
        v < 0,
    ensures
        snapped(v) == v + 1 || snapped(v) == v - 1,
        snapped(v) > v <==> v % 3 == 0,
        snapped(v - 3) == snapped(v) - 3,
{
}

/// A point is inside the map exactly if the three by three block around it is
/// on the map, whose tiles count from zero: x by the width, y by the height.
pub proof fn law_inside_means_on_the_map(x: int, y: int, width: int, height: int)
    ensures
        inside(x, y, width, height) <==> {
            &&& 0 <= x - 1 && x + 1 < width
            &&& 0 <= y - 1 && y + 1 < height
        },
{
}

/// A point is walled exactly if some wall is less than three units away from
/// it in both coordinates: less than that, and the two blocks share a tile.
pub proof fn law_walled_means_overlap(x: int, y: int, walls: Seq<Wall>)
    ensures
        forall|i: int|
            0 <= i < walls.len() && -3 < x - (#[trigger] walls[i]).x < 3 && -3 < y - walls[i].y < 3
                ==> walled(x, y, walls),
        walled(x, y, walls) ==> exists|i: int|
            0 <= i < walls.len() && -3 < x - (#[trigger] walls[i]).x < 3 && -3 < y - walls[i].y < 3,
{
    assert forall|i: int|
        0 <= i < walls.len() && -3 < x - (#[trigger] walls[i]).x < 3 && -3 < y - walls[i].y
            < 3 implies walled(x, y, walls) by {
        assert(wall_touches(walls[i], x, y));
    }
}

/// An open point lies on the map, in x by its width and in y by its height;
/// and on a map without walls every such point is open.
pub proof fn law_open_lies_on_the_map(map: Arena, p: (int, int))
    ensures
        map.open(p) ==> 1 <= p.0 < map.width - 1 && 1 <= p.1 < map.height - 1,
        map.walls.len() == 0 && 1 <= p.0 < map.width - 1 && 1 <= p.1 < map.height - 1 ==> map.open(
            p,
        ),
{
}

/// On a map of the given walls and size, a point is open exactly if its block
/// is on the map and every wall is three units or more away from it in x or in
/// y.
pub proof fn law_open_ground(walls: Seq<Wall>, map_w: i32, map_h: i32, x: int, y: int)
    ensures
        arena(walls, map_w, map_h).open((x, y)) <==> {
            &&& 1 <= x < map_w - 1
            &&& 1 <= y < map_h - 1
            &&& forall|i: int|
                0 <= i < walls.len() ==> x >= (#[trigger] walls[i]).x + 3 || x <= walls[i].x - 3
                    || y >= walls[i].y + 3 || y <= walls[i].y - 3
        },
        arena(walls, map_w, map_h).walls == walls,
        arena(walls, map_w, map_h).width == map_w,
        arena(walls, map_w, map_h).height == map_h,
{
    law_walled_means_overlap(x, y, walls);
}

/// Every wall only takes ground away, and the walls do so independently: what
/// is open among all of them is open among some and among the others.
pub proof fn law_walls_add_up(map: Arena, some: Seq<Wall>, others: Seq<Wall>, p: (int, int))
    requires
        map.walls == some + others,
    ensures
        map.open(p) <==> (Arena { walls: some, ..map }).open(p) && (Arena {
            walls: others,
            ..map
        }).open(p),
{
    law_walled_means_overlap(p.0, p.1, some);
    law_walled_means_overlap(p.0, p.1, others);
    law_walled_means_overlap(p.0, p.1, map.walls);
    assert forall|i: int| 0 <= i < some.len() implies (#[trigger] some[i]) == map.walls[i] by {}
    assert forall|i: int| 0 <= i < others.len() implies (#[trigger] others[i]) == map.walls[some.len()
        + i] by {}
}

} // verus!
