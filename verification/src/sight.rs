//! Straight lines over the grid and what can be seen along them.
use crate::grid::{gap, king_distance, larger, magnitude};
use crate::protocol::{Hero, Wall};
use vstd::arithmetic::div_mod::{lemma_fundamental_div_mod, lemma_fundamental_div_mod_converse};
use vstd::prelude::*;

verus! {

/// What `n` of `total` equal parts of `span` come to, rounded to the nearest
/// integer, halves up.
pub open spec fn share(span: int, n: int, total: int) -> int {
    (2 * n * span + total) / (2 * total)
}

/// A coordinate after `n` of `total` steps on the way from `from` to `to`.
pub open spec fn along(from: int, to: int, n: int, total: int) -> int {
    if from < to {
        from + share(to - from, n, total)
    } else if to < from {
        from - share(from - to, n, total)
    } else {
        from
    }
}

/// Point `n` of the line from one point to another. The line takes as many
/// steps as the points are king's moves apart, and each of its points is the
/// grid point nearest to the ideal line, a tie going away from the start.
pub open spec fn line_point(x0: int, y0: int, x1: int, y1: int, n: int) -> (int, int) {
    let total = king_distance(x0, y0, x1, y1);
    (along(x0, x1, n, total), along(y0, y1, n, total))
}

/// A wall keeps anyone from seeing past the point: it lies on it or right
/// beside it.
pub open spec fn blocks(wall: Wall, p: (int, int)) -> bool {
    magnitude(p.0 - wall.x) <= 1 && magnitude(p.1 - wall.y) <= 1
}

/// No wall blocks any point of the line from the first point to the second.
pub open spec fn sees(x0: int, y0: int, x1: int, y1: int, walls: Seq<Wall>) -> bool {
    forall|n: int, i: int|
        0 <= n <= king_distance(x0, y0, x1, y1) && 0 <= i < walls.len() ==> !blocks(
            #[trigger] walls[i],
            #[trigger] line_point(x0, y0, x1, y1, n),
        )
}

/// A quotient is known by the multiples it lies between.
proof fn lemma_share(span: int, n: int, total: int, q: int)
    requires
        total > 0,
        2 * (q * total) <= 2 * (n * span) + total < 2 * (q * total) + 2 * total,
    ensures
        share(span, n, total) == q,
{
    let x = 2 * n * span + total;
    let d = 2 * total;
    assert(2 * n * span == 2 * (n * span)) by (nonlinear_arith);
    assert(q * d == 2 * (q * total)) by (nonlinear_arith)
        requires
            d == 2 * total,
    ;
    lemma_fundamental_div_mod_converse(x, d, q, x - q * d);
}

/// All of the parts come to all of the span, none to nothing.
proof fn lemma_share_full(n: int, total: int)
    requires
        total > 0,
    ensures
        share(total, n, total) == n,
{
    lemma_share(total, n, total, n);
}

/// How the two counts of steps stand to each other after `major` steps along
/// the longer span `long` and `minor` along the shorter span `short`.
spec fn balanced(major: int, minor: int, long: int, short: int) -> bool {
    2 * (minor * long) - long <= 2 * (major * short) < 2 * (minor * long) + long
}

/// The state of the walk after `i` steps in x and `j` steps in y.
spec fn on_line(i: int, j: int, dx: int, dy: int) -> bool {
    &&& 0 <= i <= dx
    &&& 0 <= j <= dy
    &&& dx >= dy && dx > 0 ==> balanced(i, j, dx, dy)
    &&& dy > dx ==> balanced(j, i, dy, dx)
}

/// The number of steps taken.
spec fn steps_taken(i: int, j: int, dx: int, dy: int) -> int {
    if dx >= dy {
        i
    } else {
        j
    }
}

/// The quantity that decides the next step.
spec fn drift(i: int, j: int, dx: int, dy: int) -> int {
    dx - dy - i * dy + j * dx
}

/// The drift stays small.
proof fn lemma_drift_bounded(i: int, j: int, dx: int, dy: int)
    requires
        on_line(i, j, dx, dy),
    ensures
        -2 * (dx + dy) <= drift(i, j, dx, dy) <= 2 * (dx + dy),
{
    if dx == 0 && dy == 0 {
        assert(i * dy == 0 && j * dx == 0) by (nonlinear_arith)
            requires
                dx == 0,
                dy == 0,
        ;
    }
}

/// Unless the walk is over, it goes on along the longer span, and along the
/// shorter one exactly when the drift asks for it; and it stays on the line.
proof fn lemma_step(i: int, j: int, dx: int, dy: int)
    requires
        on_line(i, j, dx, dy),
        steps_taken(i, j, dx, dy) < larger(dx, dy),
    ensures
        ({
            let e = 2 * drift(i, j, dx, dy);
            let i2 = if e >= -dy {
                i + 1
            } else {
                i
            };
            let j2 = if e <= dx {
                j + 1
            } else {
                j
            };
            &&& on_line(i2, j2, dx, dy)
            &&& steps_taken(i2, j2, dx, dy) == steps_taken(i, j, dx, dy) + 1
            &&& drift(i2, j2, dx, dy) == drift(i, j, dx, dy) - (if e >= -dy {
                dy
            } else {
                0
            }) + (if e <= dx {
                dx
            } else {
                0
            })
        }),
{
    assert((i + 1) * dy == i * dy + dy) by (nonlinear_arith);
    assert((j + 1) * dx == j * dx + dx) by (nonlinear_arith);
    let e = 2 * drift(i, j, dx, dy);
    if dx >= dy {
        assert(e >= -dy);
        if e <= dx {
            assert(balanced(i + 1, j + 1, dx, dy));
            lemma_minor_bounded(i + 1, j + 1, dx, dy);
        } else {
            assert(balanced(i + 1, j, dx, dy));
        }
    } else {
        assert(e <= dx);
        if e >= -dy {
            assert(balanced(j + 1, i + 1, dy, dx));
            lemma_minor_bounded(j + 1, i + 1, dy, dx);
        } else {
            assert(balanced(j + 1, i, dy, dx));
        }
    }
}

/// The shorter span is never overrun.
proof fn lemma_minor_bounded(major: int, minor: int, long: int, short: int)
    requires
        balanced(major, minor, long, short),
        0 <= major <= long,
        long > 0,
        short >= 0,
    ensures
        minor <= short,
{
    assert(minor <= short) by (nonlinear_arith)
        requires
            2 * (minor * long) - long <= 2 * (major * short),
            0 <= major <= long,
            long > 0,
            short >= 0,
    ;
}

/// At the end of the longer span the shorter one has ended too.
proof fn lemma_both_end(minor: int, long: int, short: int)
    requires
        balanced(long, minor, long, short),
        long > 0,
    ensures
        minor == short,
{
    assert(minor == short) by (nonlinear_arith)
        requires
            2 * (minor * long) - long <= 2 * (long * short),
            2 * (long * short) < 2 * (minor * long) + long,
            long > 0,
    ;
}

/// The counts of steps are those of the line's points.
proof fn lemma_on_line(i: int, j: int, dx: int, dy: int)
    requires
        on_line(i, j, dx, dy),
        larger(dx, dy) > 0,
    ensures
        share(dx, steps_taken(i, j, dx, dy), larger(dx, dy)) == i,
        share(dy, steps_taken(i, j, dx, dy), larger(dx, dy)) == j,
{
    if dx >= dy {
        lemma_share_full(i, dx);
        lemma_share(dy, i, dx, j);
    } else {
        lemma_share_full(j, dy);
        lemma_share(dx, j, dy, i);
    }
}

/// The points of the line from the first point to the second, both included.
pub fn bresenham_line(x0: i32, y0: i32, x1: i32, y1: i32) -> (points: Vec<(i32, i32)>)
    ensures
        points@.len() == king_distance(x0 as int, y0 as int, x1 as int, y1 as int) + 1,
        forall|n: int|
            0 <= n < points@.len() ==> ((#[trigger] points@[n]).0 as int, points@[n].1 as int)
                == line_point(x0 as int, y0 as int, x1 as int, y1 as int, n),
{
    let mut points: Vec<(i32, i32)> = Vec::new();
    let dx: i64 = gap(x1, x0);
    let dy: i64 = -gap(y1, y0);
    let sx: i64 = if x0 < x1 {
        1
    } else {
        -1
    };
    let sy: i64 = if y0 < y1 {
        1
    } else {
        -1
    };
    let mut err: i64 = dx + dy;
    let mut x: i64 = x0 as i64;
    let mut y: i64 = y0 as i64;
    let ghost ax = dx as int;
    let ghost ay = -dy as int;
    let ghost total = larger(ax, ay);
    let ghost mut i: int = 0;
    let ghost mut j: int = 0;
    loop
        invariant_except_break
            points@.len() == steps_taken(i, j, ax, ay),
        invariant
            ax == dx,
            ay == -dy,
            ax == magnitude(x1 - x0),
            ay == magnitude(y1 - y0),
            ax <= 0xffff_ffff,
            ay <= 0xffff_ffff,
            total == larger(ax, ay),
            total == king_distance(x0 as int, y0 as int, x1 as int, y1 as int),
            sx == (if x0 < x1 {
                1int
            } else {
                -1int
            }),
            sy == (if y0 < y1 {
                1int
            } else {
                -1int
            }),
            on_line(i, j, ax, ay),
            steps_taken(i, j, ax, ay) <= total,
            err == drift(i, j, ax, ay),
            x == (if x0 < x1 {
                x0 + i
            } else {
                x0 - i
            }),
            y == (if y0 < y1 {
                y0 + j
            } else {
                y0 - j
            }),
            forall|n: int|
                0 <= n < points@.len() ==> ((#[trigger] points@[n]).0 as int, points@[n].1 as int)
                    == line_point(x0 as int, y0 as int, x1 as int, y1 as int, n),
        ensures
            points@.len() == total + 1,
        decreases total - steps_taken(i, j, ax, ay),
    {
        proof {
            if total > 0 {
                lemma_on_line(i, j, ax, ay);
            }
        }
        points.push((x as i32, y as i32));
        if x == x1 as i64 && y == y1 as i64 {
            break;
        }
        proof {
            if steps_taken(i, j, ax, ay) == total {
                if total > 0 {
                    if ax >= ay {
                        lemma_both_end(j, ax, ay);
                    } else {
                        lemma_both_end(i, ay, ax);
                    }
                }
                assert(false);
            }
            lemma_drift_bounded(i, j, ax, ay);
            lemma_step(i, j, ax, ay);
        }
        let e2: i64 = 2 * err;
        if e2 >= dy {
            err = err + dy;
            x = x + sx;
            proof {
                i = i + 1;
            }
        }
        if e2 <= dx {
            err = err + dx;
            y = y + sy;
            proof {
                j = j + 1;
            }
        }
    }
    points
}

/// Whether no wall stands in the line from the first point to the second. The
/// line back may round its halves to other points, so the two ways can differ.
pub fn has_line_of_sight(x0: i32, y0: i32, x1: i32, y1: i32, walls: &[Wall]) -> (r: bool)
    ensures
        r == sees(x0 as int, y0 as int, x1 as int, y1 as int, walls@),
{
    let line: Vec<(i32, i32)> = bresenham_line(x0, y0, x1, y1);
    for n in 0..line.len()
        invariant
            line@.len() == king_distance(x0 as int, y0 as int, x1 as int, y1 as int) + 1,
            forall|m: int|
                0 <= m < line@.len() ==> ((#[trigger] line@[m]).0 as int, line@[m].1 as int)
                    == line_point(x0 as int, y0 as int, x1 as int, y1 as int, m),
            forall|m: int, i: int|
                0 <= m < n && 0 <= i < walls@.len() ==> !blocks(
                    #[trigger] walls@[i],
                    #[trigger] line_point(x0 as int, y0 as int, x1 as int, y1 as int, m),
                ),
    {
        let (px, py) = line[n];
        assert((line@[n as int].0 as int, line@[n as int].1 as int) == line_point(
            x0 as int,
            y0 as int,
            x1 as int,
            y1 as int,
            n as int,
        ));
        for i in 0..walls.len()
            invariant
                0 <= n <= king_distance(x0 as int, y0 as int, x1 as int, y1 as int),
                (px as int, py as int) == line_point(
                    x0 as int,
                    y0 as int,
                    x1 as int,
                    y1 as int,
                    n as int,
                ),
                forall|k: int|
                    0 <= k < i ==> !blocks(#[trigger] walls@[k], (px as int, py as int)),
        {
            if gap(px, walls[i].x) <= 1 && gap(py, walls[i].y) <= 1 {
                assert(blocks(walls@[i as int], (px as int, py as int)));
                return false;
            }
        }
    }
    true
}

/// The enemy is ready to shoot and sees the hero.
pub open spec fn threatens(enemy: Hero, hero: Hero, walls: Seq<Wall>) -> bool {
    enemy.cooldown == 0 && sees(
        enemy.x as int,
        enemy.y as int,
        hero.x as int,
        hero.y as int,
        walls,
    )
}

/// Whether the enemy can shoot at the hero from where it stands.
pub fn enemy_can_shoot_hero(enemy: &Hero, hero: &Hero, walls: &[Wall]) -> (r: bool)
    ensures
        r == threatens(*enemy, *hero, walls@),
{
    enemy.cooldown == 0 && has_line_of_sight(enemy.x, enemy.y, hero.x, hero.y, walls)
}

/// A share is the multiple of the total nearest to its part of the span.
proof fn lemma_share_bounds(span: int, n: int, total: int)
    requires
        total > 0,
    ensures
        2 * (share(span, n, total) * total) <= 2 * (n * span) + total,
        2 * (n * span) + total < 2 * (share(span, n, total) * total) + 2 * total,
{
    let x = 2 * n * span + total;
    let d = 2 * total;
    let q = x / d;
    lemma_fundamental_div_mod(x, d);
    assert(2 * n * span == 2 * (n * span)) by (nonlinear_arith);
    assert(d * q == 2 * (q * total)) by (nonlinear_arith)
        requires
            d == 2 * total,
    ;
}

/// From one step to the next a share grows by one at most, and by one exactly
/// where the span is the whole.
proof fn lemma_share_next(span: int, n: int, total: int)
    requires
        total > 0,
        0 <= span <= total,
    ensures
        share(span, n, total) <= share(span, n + 1, total) <= share(span, n, total) + 1,
        span == total ==> share(span, n + 1, total) == share(span, n, total) + 1,
{
    let q = share(span, n, total);
    lemma_share_bounds(span, n, total);
    assert((n + 1) * span == n * span + span) by (nonlinear_arith);
    assert((q + 1) * total == q * total + total) by (nonlinear_arith);
    if 2 * ((n + 1) * span) + total < 2 * (q * total) + 2 * total {
        lemma_share(span, n + 1, total, q);
    } else {
        lemma_share(span, n + 1, total, q + 1);
    }
    if span == total {
        lemma_share_full(n, total);
        lemma_share_full(n + 1, total);
    }
}

/// A line begins at its first end and arrives at its second.
pub proof fn law_line_ends(x0: int, y0: int, x1: int, y1: int)
    ensures
        line_point(x0, y0, x1, y1, 0) == (x0, y0),
        line_point(x0, y0, x1, y1, king_distance(x0, y0, x1, y1)) == (x1, y1),
{
    let total = king_distance(x0, y0, x1, y1);
    let spans = seq![magnitude(x0 - x1), magnitude(y0 - y1)];
    if total > 0 {
        assert forall|k: int| 0 <= k < 2 implies share(#[trigger] spans[k], 0, total) == 0 && share(
            spans[k],
            total,
            total,
        ) == spans[k] by {
            lemma_share(spans[k], 0, total, 0);
            assert(total * spans[k] == spans[k] * total) by (nonlinear_arith);
            lemma_share(spans[k], total, total, spans[k]);
        }
        assert(share(spans[0], 0, total) == 0);
        assert(share(spans[1], 0, total) == 0);
    }
}

/// Each point of a line is one king's move from the next.
pub proof fn law_line_connected(x0: int, y0: int, x1: int, y1: int, n: int)
    requires
        0 <= n < king_distance(x0, y0, x1, y1),
    ensures
        king_distance(
            line_point(x0, y0, x1, y1, n).0,
            line_point(x0, y0, x1, y1, n).1,
            line_point(x0, y0, x1, y1, n + 1).0,
            line_point(x0, y0, x1, y1, n + 1).1,
        ) == 1,
{
    let total = king_distance(x0, y0, x1, y1);
    lemma_share_next(magnitude(x0 - x1), n, total);
    lemma_share_next(magnitude(y0 - y1), n, total);
}

/// No point of a line is more than half a unit off the ideal one.
pub proof fn law_line_near_ideal(x0: int, y0: int, x1: int, y1: int, n: int)
    requires
        0 <= n <= king_distance(x0, y0, x1, y1),
    ensures
        ({
            let total = king_distance(x0, y0, x1, y1);
            let p = line_point(x0, y0, x1, y1, n);
            &&& 2 * magnitude((p.0 - x0) * total - n * (x1 - x0)) <= total
            &&& 2 * magnitude((p.1 - y0) * total - n * (y1 - y0)) <= total
        }),
{
    lemma_along_near(x0, x1, n, king_distance(x0, y0, x1, y1));
    lemma_along_near(y0, y1, n, king_distance(x0, y0, x1, y1));
}

/// The same of one coordinate.
proof fn lemma_along_near(from: int, to: int, n: int, total: int)
    requires
        total >= magnitude(to - from),
    ensures
        2 * magnitude((along(from, to, n, total) - from) * total - n * (to - from)) <= total,
{
    if from == to {
        assert((from - from) * total == 0 && n * (to - from) == 0) by (nonlinear_arith)
            requires
                from == to,
        ;
    } else {
        let span = magnitude(to - from);
        let q = share(span, n, total);
        lemma_share_bounds(span, n, total);
        if to < from {
            assert((-q) * total == -(q * total)) by (nonlinear_arith);
            assert(n * (to - from) == -(n * span)) by (nonlinear_arith)
                requires
                    span == from - to,
            ;
        }
    }
}

/// A coordinate that grows along a line is rounded to the nearest integer,
/// halves up; one that falls, halves down; one that does neither stays.
pub proof fn law_line_rounds_away_from_the_start(x0: int, y0: int, x1: int, y1: int, n: int)
    requires
        0 <= n <= king_distance(x0, y0, x1, y1),
    ensures
        ({
            let total = king_distance(x0, y0, x1, y1);
            let p = line_point(x0, y0, x1, y1, n);
            &&& rounds_away(x0, x1, p.0, n, total)
            &&& rounds_away(y0, y1, p.1, n, total)
        }),
{
    let total = king_distance(x0, y0, x1, y1);
    if total > 0 {
        lemma_along_rounds(x0, x1, n, total);
        lemma_along_rounds(y0, y1, n, total);
    }
}

/// `at` is the integer nearest to the coordinate `n` of `total` equal steps on
/// the way, and of two equally near the one farther from the start.
pub open spec fn rounds_away(from: int, to: int, at: int, n: int, total: int) -> bool {
    &&& from <= to ==> 2 * (n * (to - from)) - total < 2 * ((at - from) * total) || at == from == to
    &&& from <= to ==> 2 * ((at - from) * total) <= 2 * (n * (to - from)) + total
    &&& to <= from ==> 2 * (n * (from - to)) - total < 2 * ((from - at) * total) || at == from == to
    &&& to <= from ==> 2 * ((from - at) * total) <= 2 * (n * (from - to)) + total
    &&& from == to ==> at == from
}

/// The same of one coordinate.
proof fn lemma_along_rounds(from: int, to: int, n: int, total: int)
    requires
        total > 0,
    ensures
        rounds_away(from, to, along(from, to, n, total), n, total),
{
    let at = along(from, to, n, total);
    if from == to {
        assert(2 * ((at - from) * total) == 0 && 2 * (n * (to - from)) == 0) by (nonlinear_arith)
            requires
                from == to,
                at == from,
        ;
    } else if from < to {
        lemma_share_bounds(to - from, n, total);
    } else {
        lemma_share_bounds(from - to, n, total);
    }
}

/// Whichever way the line runs, the second point is seen from the first exactly
/// if no wall lies within one unit, in both coordinates, of any of its points.
pub proof fn law_walls_block_sight(x0: int, y0: int, x1: int, y1: int, walls: Seq<Wall>)
    ensures
        forall|n: int, i: int|
            #![trigger walls[i], line_point(x0, y0, x1, y1, n)]
            {
                let p = line_point(x0, y0, x1, y1, n);
                &&& 0 <= n <= king_distance(x0, y0, x1, y1)
                &&& 0 <= i < walls.len()
                &&& -1 <= p.0 - walls[i].x <= 1
                &&& -1 <= p.1 - walls[i].y <= 1
            } ==> !sees(x0, y0, x1, y1, walls),
        !sees(x0, y0, x1, y1, walls) ==> exists|n: int, i: int|
            #![trigger walls[i], line_point(x0, y0, x1, y1, n)]
            {
                let p = line_point(x0, y0, x1, y1, n);
                &&& 0 <= n <= king_distance(x0, y0, x1, y1)
                &&& 0 <= i < walls.len()
                &&& -1 <= p.0 - walls[i].x <= 1
                &&& -1 <= p.1 - walls[i].y <= 1
            },
{
    assert forall|n: int, i: int|
        #![trigger walls[i], line_point(x0, y0, x1, y1, n)]
        {
            let p = line_point(x0, y0, x1, y1, n);
            &&& 0 <= n <= king_distance(x0, y0, x1, y1)
            &&& 0 <= i < walls.len()
            &&& -1 <= p.0 - walls[i].x <= 1
            &&& -1 <= p.1 - walls[i].y <= 1
        } implies !sees(x0, y0, x1, y1, walls) by {
        assert(blocks(walls[i], line_point(x0, y0, x1, y1, n)));
    }
}

/// A wall on or right beside either end blocks the sight, and so does one
/// centred on any point of the line.
pub proof fn law_walls_at_the_ends_block(
    x0: int,
    y0: int,
    x1: int,
    y1: int,
    walls: Seq<Wall>,
    i: int,
)
    requires
        0 <= i < walls.len(),
        (-1 <= x0 - walls[i].x <= 1 && -1 <= y0 - walls[i].y <= 1) || (-1 <= x1 - walls[i].x <= 1
            && -1 <= y1 - walls[i].y <= 1) || exists|n: int|
            0 <= n <= king_distance(x0, y0, x1, y1) && #[trigger] line_point(x0, y0, x1, y1, n) == (
                walls[i].x as int,
                walls[i].y as int,
            ),
    ensures
        !sees(x0, y0, x1, y1, walls),
{
    law_line_ends(x0, y0, x1, y1);
    law_walls_block_sight(x0, y0, x1, y1, walls);
    let last = king_distance(x0, y0, x1, y1);
    assert(line_point(x0, y0, x1, y1, 0) == (x0, y0));
    assert(line_point(x0, y0, x1, y1, last) == (x1, y1));
}

/// Each wall blocks on its own: what is seen past all of them is seen past
/// some and past the others. Without walls everything is seen.
pub proof fn law_sight_past_walls_adds_up(
    x0: int,
    y0: int,
    x1: int,
    y1: int,
    some: Seq<Wall>,
    others: Seq<Wall>,
)
    ensures
        sees(x0, y0, x1, y1, Seq::empty()),
        sees(x0, y0, x1, y1, some + others) <==> sees(x0, y0, x1, y1, some) && sees(
            x0,
            y0,
            x1,
            y1,
            others,
        ),
{
    let all = some + others;
    assert forall|i: int| 0 <= i < some.len() implies (#[trigger] some[i]) == all[i] by {}
    assert forall|i: int| 0 <= i < others.len() implies (#[trigger] others[i]) == all[some.len()
        + i] by {}
    if sees(x0, y0, x1, y1, all) {
        assert forall|n: int, i: int|
            0 <= n <= king_distance(x0, y0, x1, y1) && 0 <= i < some.len() implies !blocks(
            #[trigger] some[i],
            #[trigger] line_point(x0, y0, x1, y1, n),
        ) by {
            assert(!blocks(all[i], line_point(x0, y0, x1, y1, n)));
        }
        assert forall|n: int, i: int|
            0 <= n <= king_distance(x0, y0, x1, y1) && 0 <= i < others.len() implies !blocks(
            #[trigger] others[i],
            #[trigger] line_point(x0, y0, x1, y1, n),
        ) by {
            assert(!blocks(all[some.len() + i], line_point(x0, y0, x1, y1, n)));
        }
    }
    if sees(x0, y0, x1, y1, some) && sees(x0, y0, x1, y1, others) {
        assert forall|n: int, i: int|
            0 <= n <= king_distance(x0, y0, x1, y1) && 0 <= i < all.len() implies !blocks(
            #[trigger] all[i],
            #[trigger] line_point(x0, y0, x1, y1, n),
        ) by {
            if i < some.len() {
                assert(!blocks(some[i], line_point(x0, y0, x1, y1, n)));
            } else {
                assert(!blocks(others[i - some.len()], line_point(x0, y0, x1, y1, n)));
            }
        }
    }
}

/// Turning the whole map upside down, its walls with it, changes no answer.
pub proof fn law_sight_upside_down(
    x0: int,
    y0: int,
    x1: int,
    y1: int,
    walls: Seq<Wall>,
    turned: Seq<Wall>,
)
    requires
        turned.len() == walls.len(),
        forall|i: int|
            #![trigger walls[i]]
            #![trigger turned[i]]
            0 <= i < walls.len() ==> turned[i].x == walls[i].x && turned[i].y == -walls[i].y,
    ensures
        sees(x0, -y0, x1, -y1, turned) == sees(x0, y0, x1, y1, walls),
{
    lemma_sees_alike(x0, y0, x1, y1, walls, x0, -y0, x1, -y1, turned);
    lemma_sees_alike(x0, -y0, x1, -y1, turned, x0, y0, x1, y1, walls);
}

/// Turning the whole map over from left to right changes no answer.
pub proof fn law_sight_left_to_right(
    x0: int,
    y0: int,
    x1: int,
    y1: int,
    walls: Seq<Wall>,
    turned: Seq<Wall>,
)
    requires
        turned.len() == walls.len(),
        forall|i: int|
            #![trigger walls[i]]
            #![trigger turned[i]]
            0 <= i < walls.len() ==> turned[i].x == -walls[i].x && turned[i].y == walls[i].y,
    ensures
        sees(-x0, y0, -x1, y1, turned) == sees(x0, y0, x1, y1, walls),
{
    lemma_sees_alike(x0, y0, x1, y1, walls, -x0, y0, -x1, y1, turned);
    lemma_sees_alike(-x0, y0, -x1, y1, turned, x0, y0, x1, y1, walls);
}

/// Swapping the two coordinates everywhere changes no answer.
pub proof fn law_sight_swapped(
    x0: int,
    y0: int,
    x1: int,
    y1: int,
    walls: Seq<Wall>,
    turned: Seq<Wall>,
)
    requires
        turned.len() == walls.len(),
        forall|i: int|
            #![trigger walls[i]]
            #![trigger turned[i]]
            0 <= i < walls.len() ==> turned[i].x == walls[i].y && turned[i].y == walls[i].x,
    ensures
        sees(y0, x0, y1, x1, turned) == sees(x0, y0, x1, y1, walls),
{
    lemma_sees_alike(x0, y0, x1, y1, walls, y0, x0, y1, x1, turned);
    lemma_sees_alike(y0, x0, y1, x1, turned, x0, y0, x1, y1, walls);
}

/// Where each wall blocks the points of one line as its counterpart does those
/// of another, what is seen along the first is seen along the second.
proof fn lemma_sees_alike(
    x0: int,
    y0: int,
    x1: int,
    y1: int,
    walls: Seq<Wall>,
    u0: int,
    v0: int,
    u1: int,
    v1: int,
    turned: Seq<Wall>,
)
    requires
        turned.len() == walls.len(),
        king_distance(u0, v0, u1, v1) == king_distance(x0, y0, x1, y1),
        forall|n: int, i: int|
            #![trigger turned[i], line_point(u0, v0, u1, v1, n)]
            0 <= n <= king_distance(x0, y0, x1, y1) && 0 <= i < walls.len() ==> blocks(
                turned[i],
                line_point(u0, v0, u1, v1, n),
            ) == blocks(walls[i], line_point(x0, y0, x1, y1, n)),
    ensures
        sees(x0, y0, x1, y1, walls) ==> sees(u0, v0, u1, v1, turned),
{
    if sees(x0, y0, x1, y1, walls) {
        assert forall|n: int, i: int|
            0 <= n <= king_distance(u0, v0, u1, v1) && 0 <= i < turned.len() implies !blocks(
            #[trigger] turned[i],
            #[trigger] line_point(u0, v0, u1, v1, n),
        ) by {
            assert(!blocks(walls[i], line_point(x0, y0, x1, y1, n)));
        }
    }
}

/// An enemy threatens a hero exactly if its weapon is ready and it sees the
/// hero, whatever the hero's own weapon.
pub proof fn law_threat(enemy: Hero, hero: Hero, other: Hero, walls: Seq<Wall>)
    requires
        other.x == hero.x,
        other.y == hero.y,
    ensures
        threatens(enemy, hero, walls) <==> enemy.cooldown == 0 && sees(
            enemy.x as int,
            enemy.y as int,
            hero.x as int,
            hero.y as int,
            walls,
        ),
        threatens(enemy, hero, walls) == threatens(enemy, other, walls),
{
}

} // verus!
