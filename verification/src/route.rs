//! The way a hero takes round the walls: breadth-first search over the grid.
use crate::grid::{arena, is_open, snap, snapped, snapped_point, Arena};
use crate::protocol::Wall;
use std::collections::HashMap;
use std::collections::VecDeque;
use vstd::prelude::*;

verus! {

/// The eight headings of a step, in order of preference: the four straight
/// ones first, then the diagonals.
pub open spec fn heading(k: int) -> (int, int) {
    if k == 0 {
        (0, 3)
    } else if k == 1 {
        (0, -3)
    } else if k == 2 {
        (3, 0)
    } else if k == 3 {
        (-3, 0)
    } else if k == 4 {
        (3, 3)
    } else if k == 5 {
        (3, -3)
    } else if k == 6 {
        (-3, 3)
    } else {
        (-3, -3)
    }
}

/// The point one step from `p` in heading `k`.
pub open spec fn advance(p: (int, int), k: int) -> (int, int) {
    (p.0 + heading(k).0, p.1 + heading(k).1)
}

/// Where a sequence of headings leads.
pub open spec fn end_of(start: (int, int), moves: Seq<int>) -> (int, int)
    decreases moves.len(),
{
    if moves.len() == 0 {
        start
    } else {
        advance(end_of(start, moves.drop_last()), moves.last())
    }
}

/// Every step of the sequence ends on an open point. The start itself may be
/// anywhere.
pub open spec fn is_route(start: (int, int), moves: Seq<int>, map: Arena) -> bool
    decreases moves.len(),
{
    moves.len() == 0 || {
        &&& is_route(start, moves.drop_last(), map)
        &&& 0 <= moves.last() < 8
        &&& map.open(end_of(start, moves))
    }
}

/// A route from `start` that ends on `target`.
pub open spec fn leads(start: (int, int), target: (int, int), moves: Seq<int>, map: Arena) -> bool {
    is_route(start, moves, map) && end_of(start, moves) == target
}

/// `target` can be reached from `start`.
pub open spec fn reachable(start: (int, int), target: (int, int), map: Arena) -> bool {
    exists|moves: Seq<int>| leads(start, target, moves, map)
}

/// A shortest route to the target and, among the shortest, one that sets out
/// in the earliest heading.
pub open spec fn is_best_route(
    start: (int, int),
    target: (int, int),
    moves: Seq<int>,
    map: Arena,
) -> bool {
    &&& leads(start, target, moves, map)
    &&& forall|other: Seq<int>| #[trigger]
        leads(start, target, other, map) ==> {
            &&& moves.len() <= other.len()
            &&& moves.len() == other.len() > 0 ==> moves[0] <= other[0]
        }
}

/// The point a hero at `start` goes to on the way to `target`: the first step
/// of a best route, or `start` itself where the hero is already there or no
/// route exists.
pub open spec fn next_step(start: (int, int), target: (int, int), map: Arena) -> (int, int) {
    if reachable(start, target, map) {
        let best = choose|moves: Seq<int>| is_best_route(start, target, moves, map);
        if best.len() == 0 {
            start
        } else {
            advance(start, best[0])
        }
    } else {
        start
    }
}

/// What the search knows: the points found so far in the order they were
/// found, a route to each, and the index of the point each was found from.
struct Search {
    start: (int, int),
    map: Arena,
    found: Seq<(int, int)>,
    routes: Seq<Seq<int>>,
    parents: Seq<int>,
}

impl Search {
    /// The points form a tree rooted at the start, without repetition.
    spec fn is_tree(self) -> bool {
        let n = self.found.len();
        &&& n > 0
        &&& self.routes.len() == n
        &&& self.parents.len() == n
        &&& self.found[0] == self.start
        &&& self.routes[0].len() == 0
        &&& self.parents[0] == 0
        &&& forall|i: int, j: int| 0 <= i < j < n ==> self.found[i] != self.found[j]
        &&& forall|j: int| 0 < j < n ==> 0 <= #[trigger] self.parents[j] < j
        &&& forall|j: int|
            0 < j < n ==> {
                &&& (#[trigger] self.routes[j]).len() > 0
                &&& self.routes[j].drop_last() == self.routes[self.parents[j]]
            }
        &&& forall|j: int|
            0 <= j < n ==> leads(self.start, self.found[j], #[trigger] self.routes[j], self.map)
    }

    /// Earlier points were found from earlier points, have no longer routes,
    /// and among routes of the same length no later first heading.
    spec fn is_ordered(self) -> bool {
        let n = self.found.len();
        &&& forall|i: int, j: int| 0 <= i < j < n ==> self.parents[i] <= self.parents[j]
        &&& forall|i: int, j: int| 0 <= i < j < n ==> self.routes[i].len() <= self.routes[j].len()
        &&& forall|i: int, j: int|
            0 <= i < j < n && self.routes[i].len() == self.routes[j].len() > 0
                ==> self.routes[i][0] <= self.routes[j][0]
    }

    /// The point next to `found[u]` in heading `k`, if open, was found, and no
    /// later than from `found[u]`.
    spec fn covers(self, u: int, k: int) -> bool {
        self.map.open(advance(self.found[u], k)) ==> exists|j: int|
            0 <= j < self.found.len() && #[trigger] self.found[j] == advance(self.found[u], k)
                && self.parents[j] <= u
    }

    /// All points before index `head` have had all their neighbours looked at.
    spec fn expanded(self, head: int) -> bool {
        forall|u: int, k: int| 0 <= u < head && 0 <= k < 8 ==> #[trigger] self.covers(u, k)
    }

    /// The search with one more point, found from `found[u]` in heading `k`.
    spec fn grown(self, u: int, k: int) -> Search {
        Search {
            start: self.start,
            map: self.map,
            found: self.found.push(advance(self.found[u], k)),
            routes: self.routes.push(self.routes[u].push(k)),
            parents: self.parents.push(u),
        }
    }
}

/// Growing keeps the search a tree.
proof fn lemma_grown_tree(s: Search, u: int, k: int)
    requires
        s.is_tree(),
        0 <= u < s.found.len(),
        0 <= k < 8,
        s.map.open(advance(s.found[u], k)),
        !s.found.contains(advance(s.found[u], k)),
    ensures
        s.grown(u, k).is_tree(),
{
    let t = s.grown(u, k);
    assert(s.routes[u].push(k).drop_last() == s.routes[u]);
    assert(leads(s.start, t.found[s.found.len() as int], t.routes[s.found.len() as int], s.map));
    assert forall|j: int| 0 < j < t.found.len() implies {
        &&& (#[trigger] t.routes[j]).len() > 0
        &&& t.routes[j].drop_last() == t.routes[t.parents[j]]
    } by {
        if j < s.found.len() {
            assert(t.routes[j] == s.routes[j]);
            assert(0 <= s.parents[j] < j);
        }
    }
    assert forall|j: int| 0 <= j < t.found.len() implies leads(
        t.start,
        t.found[j],
        #[trigger] t.routes[j],
        t.map,
    ) by {
        if j < s.found.len() {
            assert(t.routes[j] == s.routes[j]);
        }
    }
}

/// Growing from the last expanded point, in a later heading than its earlier
/// finds, keeps the order.
proof fn lemma_grown_order(s: Search, u: int, k: int)
    requires
        s.is_tree(),
        s.is_ordered(),
        0 <= u < s.found.len(),
        0 <= k < 8,
        forall|j: int| 0 <= j < s.found.len() ==> #[trigger] s.parents[j] <= u,
        forall|j: int|
            0 < j < s.found.len() && s.parents[j] == u ==> (#[trigger] s.routes[j]).last() < k,
    ensures
        s.grown(u, k).is_ordered(),
{
    let t = s.grown(u, k);
    let n = s.found.len() as int;
    assert(t.routes[n] == s.routes[u].push(k));
    assert forall|i: int| 0 <= i < n implies (#[trigger] s.routes[i]).len() <= s.routes[u].len() + 1 by {
        if i > 0 {
            let p = s.parents[i];
            assert(s.routes[i].drop_last() == s.routes[p]);
            assert(p <= u);
            if p < u {
                assert(s.routes[p].len() <= s.routes[u].len());
            }
        }
    }
    assert forall|i: int, j: int|
        0 <= i < j < t.found.len() && t.routes[i].len() == t.routes[j].len() > 0 implies t.routes[i][0]
        <= t.routes[j][0] by {
        if j == n {
            let p = s.parents[i];
            assert(t.routes[i] == s.routes[i]);
            assert(i > 0);
            assert(s.routes[i].drop_last() == s.routes[p]);
            assert(p <= u);
            if s.routes[u].len() == 0 {
                if u > 0 {
                    assert(s.routes[u].len() > 0);
                }
                assert(p == u);
                assert(s.routes[i].last() < k);
                assert(s.routes[i].len() == 1);
            } else {
                assert(s.routes[i][0] == s.routes[p][0]);
                assert(t.routes[j][0] == s.routes[u][0]);
                if p < u {
                    assert(s.routes[p][0] <= s.routes[u][0]);
                }
            }
        } else {
            assert(t.routes[i] == s.routes[i]);
            assert(t.routes[j] == s.routes[j]);
        }
    }
    assert forall|i: int, j: int| 0 <= i < j < t.found.len() implies t.routes[i].len()
        <= t.routes[j].len() by {
        assert(t.routes[i] == s.routes[i]);
        if j < n {
            assert(t.routes[j] == s.routes[j]);
        }
    }
    assert forall|i: int, j: int| 0 <= i < j < t.found.len() implies t.parents[i]
        <= t.parents[j] by {
        assert(t.parents[i] == s.parents[i]);
    }
}

/// Growing loses no coverage.
proof fn lemma_grown_covers(s: Search, u: int, k: int, v: int, l: int)
    requires
        s.is_tree(),
        0 <= u < s.found.len(),
        0 <= v < s.found.len(),
        s.covers(v, l),
    ensures
        s.grown(u, k).covers(v, l),
{
    let t = s.grown(u, k);
    let p = advance(s.found[v], l);
    assert(t.found[v] == s.found[v]);
    if s.map.open(p) {
        let j = choose|j: int|
            0 <= j < s.found.len() && #[trigger] s.found[j] == p && s.parents[j] <= v;
        assert(t.found[j] == p && t.parents[j] <= v);
    }
}

/// Two headings that lead from a point to the same point are the same.
proof fn lemma_heading_unique(p: (int, int), k: int, l: int)
    requires
        0 <= k < 8,
        0 <= l < 8,
        advance(p, k) == advance(p, l),
    ensures
        k == l,
{
}

/// A point found no later than from `found[u]` has a route no longer than one
/// through `found[u]` and, if as long, one that sets out no later.
proof fn lemma_find_no_later(s: Search, u: int, j: int, moves: Seq<int>)
    requires
        s.is_tree(),
        s.is_ordered(),
        0 <= u < s.found.len(),
        0 <= j < s.found.len(),
        moves.len() > 0,
        is_route(s.start, moves, s.map),
        s.found[u] == end_of(s.start, moves.drop_last()),
        s.found[j] == end_of(s.start, moves),
        s.parents[j] <= u,
        s.routes[u].len() < moves.len(),
        s.routes[u].len() == moves.len() - 1 > 0 ==> s.routes[u][0] <= moves[0],
    ensures
        s.routes[j].len() <= moves.len(),
        s.routes[j].len() == moves.len() ==> s.routes[j][0] <= moves[0],
{
    if j > 0 {
        let q = s.parents[j];
        assert(0 <= q < j);
        assert(s.routes[j].len() > 0);
        assert(s.routes[j].drop_last() == s.routes[q]);
        assert(s.routes[q].len() <= s.routes[u].len()) by {
            if q < u {
            }
        }
        if s.routes[j].len() == moves.len() {
            if moves.len() > 1 {
                assert(s.routes[q][0] <= s.routes[u][0]) by {
                    if q < u {
                    }
                }
                assert(s.routes[j][0] == s.routes[q][0]);
            } else {
                if u > 0 {
                    assert(s.routes[u].len() > 0);
                }
                assert(leads(s.start, s.found[j], s.routes[j], s.map));
                assert(end_of(s.start, s.routes[j].drop_last()) == s.start);
                assert(end_of(s.start, moves.drop_last()) == s.start);
                lemma_heading_unique(s.start, s.routes[j].last(), moves.last());
            }
        }
    }
}

/// Every route no longer than `limit` ends on a point that was found by a
/// route that is shorter or, if as long, sets out no later; provided that all
/// points with routes shorter than `limit` have been expanded.
proof fn lemma_routes_found(s: Search, head: int, limit: nat, moves: Seq<int>)
    requires
        s.is_tree(),
        s.is_ordered(),
        s.expanded(head),
        0 <= head <= s.found.len(),
        forall|j: int| 0 <= j < s.found.len() && (#[trigger] s.routes[j]).len() < limit ==> j < head,
        is_route(s.start, moves, s.map),
        moves.len() <= limit,
    ensures
        exists|j: int|
            0 <= j < s.found.len() && #[trigger] s.found[j] == end_of(s.start, moves) && {
                &&& s.routes[j].len() <= moves.len()
                &&& s.routes[j].len() == moves.len() > 0 ==> s.routes[j][0] <= moves[0]
            },
    decreases moves.len(),
{
    if moves.len() == 0 {
        assert(s.found[0] == end_of(s.start, moves));
    } else {
        let before = moves.drop_last();
        let k = moves.last();
        lemma_routes_found(s, head, limit, before);
        let u = choose|u: int|
            0 <= u < s.found.len() && #[trigger] s.found[u] == end_of(s.start, before) && {
                &&& s.routes[u].len() <= before.len()
                &&& s.routes[u].len() == before.len() > 0 ==> s.routes[u][0] <= before[0]
            };
        assert(s.routes[u].len() < limit);
        assert(s.covers(u, k));
        let p = advance(s.found[u], k);
        assert(p == end_of(s.start, moves));
        let j = choose|j: int|
            0 <= j < s.found.len() && #[trigger] s.found[j] == p && s.parents[j] <= u;
        lemma_find_no_later(s, u, j, moves);
        assert(s.found[j] == end_of(s.start, moves));
    }
}

/// Where a best route is known, the next step is its first.
pub proof fn lemma_next_step(start: (int, int), target: (int, int), moves: Seq<int>, map: Arena)
    requires
        is_best_route(start, target, moves, map),
    ensures
        moves.len() == 0 ==> next_step(start, target, map) == start,
        moves.len() > 0 ==> next_step(start, target, map) == advance(start, moves[0]),
{
    assert(leads(start, target, moves, map));
    let best = choose|m: Seq<int>| is_best_route(start, target, m, map);
    assert(is_best_route(start, target, best, map));
    assert(leads(start, target, best, map));
}

/// A number that stands for a point as a map key.
spec fn key_of(p: (int, int)) -> int {
    (p.0 + 0x8000_0000) * 0x1_0000_0000 + (p.1 + 0x8000_0000)
}

/// Both coordinates are in the range of `i32`.
spec fn narrow(p: (int, int)) -> bool {
    i32::MIN <= p.0 <= i32::MAX && i32::MIN <= p.1 <= i32::MAX
}

/// The coordinates as `i32` values hold them.
spec fn point(p: (i32, i32)) -> (int, int) {
    (p.0 as int, p.1 as int)
}

/// The map key of a point.
fn key(x: i32, y: i32) -> (k: u64)
    ensures
        k == key_of((x as int, y as int)),
{
    let row: u64 = (x as i64 + 0x8000_0000) as u64;
    let column: u64 = (y as i64 + 0x8000_0000) as u64;
    row * 0x1_0000_0000 + column
}

/// The table of origins holds exactly the points found, each with the point
/// it was found from.
spec fn records(came_from: Map<u64, (i32, i32)>, s: Search) -> bool {
    &&& forall|j: int| 0 <= j < s.found.len() ==> narrow(#[trigger] s.found[j])
    &&& forall|j: int|
        0 <= j < s.found.len() ==> {
            &&& came_from.contains_key(key_of(#[trigger] s.found[j]) as u64)
            &&& point(came_from[key_of(s.found[j]) as u64]) == s.found[s.parents[j]]
        }
    &&& forall|p: (int, int)|
        narrow(p) && came_from.contains_key(#[trigger] key_of(p) as u64) ==> s.found.contains(p)
}

/// The search finds no more points than there are keys.
proof fn lemma_found_bounded(s: Search)
    requires
        s.is_tree(),
        forall|j: int| 0 <= j < s.found.len() ==> narrow(#[trigger] s.found[j]),
    ensures
        s.found.len() <= 0x1_0000_0000_0000_0000,
{
    let keys = Seq::new(s.found.len(), |j: int| key_of(s.found[j]));
    assert forall|i: int, j: int| 0 <= i < keys.len() && 0 <= j < keys.len() && i != j implies keys[i]
        != keys[j] by {
        assert(narrow(s.found[i]) && narrow(s.found[j]));
        if i < j {
            assert(s.found[i] != s.found[j]);
        } else {
            assert(s.found[j] != s.found[i]);
        }
    }
    assert(keys.no_duplicates());
    keys.unique_seq_to_set();
    let range = vstd::set_lib::set_int_range(0, 0x1_0000_0000_0000_0000);
    vstd::set_lib::lemma_int_range(0, 0x1_0000_0000_0000_0000);
    assert forall|k: int| keys.to_set().contains(k) implies range.contains(k) by {
        let j = choose|j: int| 0 <= j < keys.len() && keys[j] == k;
        assert(narrow(s.found[j]));
    }
    vstd::set_lib::lemma_len_subset(keys.to_set(), range);
}

/// Recording a new point keeps the table in step with the search.
proof fn lemma_grown_records(
    s: Search,
    u: int,
    k: int,
    table: Map<u64, (i32, i32)>,
    origin: (i32, i32),
)
    requires
        s.is_tree(),
        records(table, s),
        0 <= u < s.found.len(),
        point(origin) == s.found[u],
        narrow(advance(s.found[u], k)),
        !s.found.contains(advance(s.found[u], k)),
    ensures
        records(table.insert(key_of(advance(s.found[u], k)) as u64, origin), s.grown(u, k)),
{
    let p = advance(s.found[u], k);
    let t = s.grown(u, k);
    let n = s.found.len() as int;
    let table2 = table.insert(key_of(p) as u64, origin);
    assert forall|j: int| 0 <= j < t.found.len() implies {
        &&& narrow(#[trigger] t.found[j])
        &&& table2.contains_key(key_of(t.found[j]) as u64)
        &&& point(table2[key_of(t.found[j]) as u64]) == t.found[t.parents[j]]
    } by {
        if j < n {
            assert(t.found[j] == s.found[j]);
            assert(s.found[j] != p);
            assert(narrow(s.found[j]));
            assert(key_of(s.found[j]) != key_of(p));
            assert(0 <= s.parents[j] < n) by {
                if j > 0 {
                }
            }
            assert(t.found[s.parents[j]] == s.found[s.parents[j]]);
        }
    }
    assert forall|q: (int, int)|
        narrow(q) && table2.contains_key(#[trigger] key_of(q) as u64) implies t.found.contains(q) by {
        if key_of(q) == key_of(p) {
            assert(q == p);
            assert(t.found[n] == p);
        } else {
            assert(table.contains_key(key_of(q) as u64));
            assert(s.found.contains(q));
            let j = choose|j: int| 0 <= j < s.found.len() && s.found[j] == q;
            assert(t.found[j] == q);
        }
    }
}

/// The route by which the search found the goal is a best one.
proof fn lemma_found_best(s: Search, head: int)
    requires
        s.is_tree(),
        s.is_ordered(),
        s.expanded(head),
        0 <= head < s.found.len(),
    ensures
        is_best_route(s.start, s.found[head], s.routes[head], s.map),
{
    let goal = s.found[head];
    let mine = s.routes[head];
    assert(leads(s.start, goal, mine, s.map));
    assert forall|other: Seq<int>| #[trigger] leads(s.start, goal, other, s.map) implies {
        &&& mine.len() <= other.len()
        &&& mine.len() == other.len() > 0 ==> mine[0] <= other[0]
    } by {
        if other.len() <= mine.len() {
            assert forall|j: int|
                0 <= j < s.found.len() && (#[trigger] s.routes[j]).len() < mine.len() implies j
                < head by {
                if j > head {
                    assert(s.routes[head].len() <= s.routes[j].len());
                }
            }
            lemma_routes_found(s, head, mine.len(), other);
            let j = choose|j: int|
                0 <= j < s.found.len() && #[trigger] s.found[j] == goal && {
                    &&& s.routes[j].len() <= other.len()
                    &&& s.routes[j].len() == other.len() > 0 ==> s.routes[j][0] <= other[0]
                };
            assert(j == head);
        }
    }
}

/// Follows the origins from a goal just found back to the first step.
fn first_of_chain(
    start_x: i32,
    start_y: i32,
    goal_x: i32,
    goal_y: i32,
    came_from: &HashMap<u64, (i32, i32)>,
    Ghost(s): Ghost<Search>,
    Ghost(head): Ghost<int>,
) -> (step: (i32, i32))
    requires
        s.is_tree(),
        s.is_ordered(),
        s.expanded(head),
        records(came_from@, s),
        0 < head < s.found.len(),
        s.start == (start_x as int, start_y as int),
        s.found[head] == (goal_x as int, goal_y as int),
    ensures
        (step.0 as int, step.1 as int) == next_step(s.start, s.found[head], s.map),
{
    broadcast use vstd::std_specs::hash::group_hash_axioms;

    proof {
        lemma_found_best(s, head);
        lemma_next_step(s.start, s.found[head], s.routes[head], s.map);
    }
    let mut x: i32 = goal_x;
    let mut y: i32 = goal_y;
    let ghost mut at: int = head;
    loop
        invariant
            s.is_tree(),
            records(came_from@, s),
            0 < at <= head < s.found.len(),
            s.start == (start_x as int, start_y as int),
            s.found[at] == (x as int, y as int),
            s.routes[at].len() > 0,
            s.routes[at][0] == s.routes[head][0],
            next_step(s.start, s.found[head], s.map) == advance(s.start, s.routes[head][0]),
        decreases at,
    {
        let ghost up = s.parents[at];
        assert(came_from@.contains_key(key_of(s.found[at]) as u64));
        assert(s.routes[at].drop_last() == s.routes[up]);
        match came_from.get(&key(x, y)) {
            Some(origin) => {
                let (px, py) = *origin;
                assert((px as int, py as int) == s.found[up]);
                if px == start_x && py == start_y {
                    proof {
                        if up > 0 {
                            assert(s.found[0] != s.found[up]);
                        }
                        assert(leads(s.start, s.found[at], s.routes[at], s.map));
                        assert(end_of(s.start, s.routes[up]) == s.start);
                    }
                    return (x, y);
                }
                x = px;
                y = py;
                proof {
                    assert(up > 0);
                    assert(s.routes[up].len() > 0);
                    assert(s.routes[at][0] == s.routes[up][0]);
                    at = up;
                }
            },
            None => {
                assert(false);
                return (x, y);
            },
        }
    }
}

/// The headings of a step, in the order in which they are tried.
fn directions() -> (d: [(i64, i64); 8])
    ensures
        forall|k: int| 0 <= k < 8 ==> (#[trigger] d@[k]).0 == heading(k).0 && d@[k].1 == heading(k).1,
{
    [(0, 3), (0, -3), (3, 0), (-3, 0), (3, 3), (3, -3), (-3, 3), (-3, -3)]
}

/// The next point on a shortest way from the start to the target, whose
/// coordinates are snapped first. The start is returned where the hero is
/// already there, or where no way exists.
pub fn bfs_next_step(
    start_x: i32,
    start_y: i32,
    target_x: i32,
    target_y: i32,
    walls: &[Wall],
    map_w: i32,
    map_h: i32,
) -> (step: (i32, i32))
    ensures
        (step.0 as int, step.1 as int) == next_step(
            (start_x as int, start_y as int),
            snapped_point((target_x as int, target_y as int)),
            arena(walls@, map_w, map_h),
        ),
{
    step_towards(start_x, start_y, target_x as i64, target_y as i64, walls, map_w, map_h)
}

/// `bfs_next_step` for a target anywhere near the range of the map's own
/// coordinates.
pub(crate) fn step_towards(
    start_x: i32,
    start_y: i32,
    target_x: i64,
    target_y: i64,
    walls: &[Wall],
    map_w: i32,
    map_h: i32,
) -> (step: (i32, i32))
    requires
        i64::MIN < target_x < i64::MAX,
        i64::MIN < target_y < i64::MAX,
    ensures
        (step.0 as int, step.1 as int) == next_step(
            (start_x as int, start_y as int),
            snapped_point((target_x as int, target_y as int)),
            arena(walls@, map_w, map_h),
        ),
{
    broadcast use vstd::std_specs::hash::group_hash_axioms;

    let goal_x: i64 = snap(target_x);
    let goal_y: i64 = snap(target_y);
    let ghost start = (start_x as int, start_y as int);
    let ghost goal = (goal_x as int, goal_y as int);
    let ghost map = arena(walls@, map_w, map_h);

    if start_x as i64 == goal_x && start_y as i64 == goal_y {
        proof {
            let here = Seq::<int>::empty();
            assert(is_best_route(start, goal, here, map));
            lemma_next_step(start, goal, here, map);
        }
        return (start_x, start_y);
    }
    let mut came_from: HashMap<u64, (i32, i32)> = HashMap::new();
    let mut queue: VecDeque<(i32, i32)> = VecDeque::new();
    came_from.insert(key(start_x, start_y), (start_x, start_y));
    queue.push_back((start_x, start_y));
    let steps: [(i64, i64); 8] = directions();

    let ghost mut s = Search {
        start,
        map,
        found: seq![start],
        routes: seq![Seq::<int>::empty()],
        parents: seq![0int],
    };
    let ghost mut head: int = 0;
    proof {
        assert(leads(start, start, s.routes[0], map));
        assert(s.is_tree());
        assert(s.is_ordered());
        assert(records(came_from@, s)) by {
            assert forall|p: (int, int)|
                narrow(p) && came_from@.contains_key(#[trigger] key_of(p) as u64) implies s.found.contains(
                p,
            ) by {
                assert(s.found[0] == start);
                assert(p == start);
            }
        }
    }
    loop
        invariant
            s.start == start,
            s.map == map,
            start == (start_x as int, start_y as int),
            goal == (goal_x as int, goal_y as int),
            goal == snapped_point((target_x as int, target_y as int)),
            map == arena(walls@, map_w, map_h),
            start != goal,
            s.is_tree(),
            s.is_ordered(),
            s.expanded(head),
            records(came_from@, s),
            0 <= head <= s.found.len(),
            forall|j: int| 0 < j < s.found.len() ==> #[trigger] s.parents[j] < head,
            forall|j: int| 0 <= j < head ==> #[trigger] s.found[j] != goal,
            queue@.len() == s.found.len() - head,
            forall|i: int| 0 <= i < queue@.len() ==> point(#[trigger] queue@[i]) == s.found[head + i],
            forall|k: int|
                0 <= k < 8 ==> (#[trigger] steps@[k]).0 == heading(k).0 && steps@[k].1 == heading(k).1,
        decreases 0x1_0000_0000_0000_0000 - head,
    {
        proof {
            lemma_found_bounded(s);
        }
        let ghost waiting = queue@;
        match queue.pop_front() {
            None => {
                proof {
                    assert(head == s.found.len());
                    if reachable(start, goal, map) {
                        let way = choose|moves: Seq<int>| leads(start, goal, moves, map);
                        lemma_routes_found(s, head, way.len(), way);
                    }
                }
                return (start_x, start_y);
            },
            Some((cx, cy)) => {
                assert(point(waiting[0]) == s.found[head]);
                if cx as i64 == goal_x && cy as i64 == goal_y {
                    return first_of_chain(
                        start_x,
                        start_y,
                        cx,
                        cy,
                        &came_from,
                        Ghost(s),
                        Ghost(head),
                    );
                }
                let mut k: usize = 0;
                while k < 8
                    invariant
                        0 <= k <= 8,
                        s.start == start,
                        s.map == map,
                        map == arena(walls@, map_w, map_h),
                        s.is_tree(),
                        s.is_ordered(),
                        s.expanded(head),
                        forall|l: int| 0 <= l < k ==> #[trigger] s.covers(head, l),
                        records(came_from@, s),
                        0 <= head < s.found.len(),
                        s.found[head] == (cx as int, cy as int),
                        forall|j: int| 0 <= j < s.found.len() ==> #[trigger] s.parents[j] <= head,
                        forall|j: int|
                            0 < j < s.found.len() && s.parents[j] == head
                                ==> (#[trigger] s.routes[j]).last() < k,
                        forall|j: int| 0 <= j <= head ==> #[trigger] s.found[j] != goal,
                        queue@.len() == s.found.len() - head - 1,
                        forall|i: int|
                            0 <= i < queue@.len() ==> point(#[trigger] queue@[i]) == s.found[head + 1 + i],
                        forall|k: int|
                            0 <= k < 8 ==> (#[trigger] steps@[k]).0 == heading(k).0 && steps@[k].1
                                == heading(k).1,
                    decreases 8 - k,
                {
                    let (dx, dy) = steps[k];
                    assert(steps@[k as int].0 == heading(k as int).0);
                    let nx: i64 = cx as i64 + dx;
                    let ny: i64 = cy as i64 + dy;
                    let ghost p = advance(s.found[head], k as int);
                    assert(p == (nx as int, ny as int));
                    let ghost before = s;
                    if is_open(nx, ny, walls, map_w, map_h) {
                        let px: i32 = nx as i32;
                        let py: i32 = ny as i32;
                        let id: u64 = key(px, py);
                        if !came_from.contains_key(&id) {
                            proof {
                                assert(!s.found.contains(p)) by {
                                    if s.found.contains(p) {
                                        let j = choose|j: int| 0 <= j < s.found.len() && s.found[j] == p;
                                        assert(came_from@.contains_key(key_of(s.found[j]) as u64));
                                    }
                                }
                                lemma_grown_tree(s, head, k as int);
                                lemma_grown_order(s, head, k as int);
                            }
                            let ghost old_table = came_from@;
                            came_from.insert(id, (cx, cy));
                            queue.push_back((px, py));
                            proof {
                                s = before.grown(head, k as int);
                                lemma_grown_records(before, head, k as int, old_table, (cx, cy));
                                assert forall|u: int, l: int| 0 <= u < head && 0 <= l < 8 implies #[trigger] s.covers(
                                    u,
                                    l,
                                ) by {
                                    assert(before.covers(u, l));
                                    lemma_grown_covers(before, head, k as int, u, l);
                                }
                                assert forall|l: int| 0 <= l < k implies #[trigger] s.covers(head, l) by {
                                    assert(before.covers(head, l));
                                    lemma_grown_covers(before, head, k as int, head, l);
                                }
                                assert(s.found[before.found.len() as int] == p);
                                assert(s.found[head] == before.found[head]);
                                assert(s.covers(head, k as int));
                            }
                        } else {
                            proof {
                                assert(narrow(p));
                                assert(s.found.contains(p));
                                let j = choose|j: int| 0 <= j < s.found.len() && s.found[j] == p;
                                assert(s.parents[j] <= head);
                                assert(s.covers(head, k as int));
                            }
                        }
                    } else {
                        assert(s.covers(head, k as int));
                    }
                    k = k + 1;
                }
                proof {
                    head = head + 1;
                }
            },
        }
    }
}

/// The number of steps on a shortest route.
pub open spec fn shortest(start: (int, int), target: (int, int), map: Arena) -> nat {
    (choose|moves: Seq<int>| is_best_route(start, target, moves, map)).len()
}

/// Where a hero stands after `n` turns of taking the next step.
pub open spec fn follow(start: (int, int), target: (int, int), map: Arena, n: nat) -> (int, int)
    decreases n,
{
    if n == 0 {
        start
    } else {
        follow(next_step(start, target, map), target, map, (n - 1) as nat)
    }
}

/// Every heading of a route is one of the eight.
proof fn lemma_route_headings(start: (int, int), moves: Seq<int>, map: Arena)
    requires
        is_route(start, moves, map),
    ensures
        forall|i: int| 0 <= i < moves.len() ==> 0 <= #[trigger] moves[i] < 8,
    decreases moves.len(),
{
    if moves.len() > 0 {
        lemma_route_headings(start, moves.drop_last(), map);
        assert forall|i: int| 0 <= i < moves.len() implies 0 <= #[trigger] moves[i] < 8 by {
            if i < moves.len() - 1 {
                assert(moves.drop_last()[i] == moves[i]);
            }
        }
    }
}

/// A route goes through its first step, and the rest is a route from there.
proof fn lemma_route_tail(start: (int, int), moves: Seq<int>, map: Arena)
    requires
        is_route(start, moves, map),
        moves.len() > 0,
    ensures
        0 <= moves[0] < 8,
        map.open(advance(start, moves[0])),
        is_route(advance(start, moves[0]), moves.drop_first(), map),
        end_of(advance(start, moves[0]), moves.drop_first()) == end_of(start, moves),
    decreases moves.len(),
{
    let rest = moves.drop_first();
    let p = advance(start, moves[0]);
    if moves.len() == 1 {
        assert(end_of(start, moves.drop_last()) == start);
    } else {
        lemma_route_tail(start, moves.drop_last(), map);
        assert(moves.drop_last().drop_first() =~= rest.drop_last());
        assert(rest.last() == moves.last());
    }
}

/// A step to an open point followed by a route from there is a route.
proof fn lemma_route_cons(start: (int, int), k: int, rest: Seq<int>, map: Arena)
    requires
        0 <= k < 8,
        map.open(advance(start, k)),
        is_route(advance(start, k), rest, map),
    ensures
        is_route(start, seq![k] + rest, map),
        end_of(start, seq![k] + rest) == end_of(advance(start, k), rest),
    decreases rest.len(),
{
    let whole = seq![k] + rest;
    if rest.len() == 0 {
        assert(end_of(start, whole.drop_last()) == start);
        assert(is_route(start, whole.drop_last(), map));
        assert(whole.last() == k);
    } else {
        lemma_route_cons(start, k, rest.drop_last(), map);
        assert(whole.drop_last() =~= seq![k] + rest.drop_last());
        assert(whole.last() == rest.last());
    }
}

/// Where a route exists, a best one does.
proof fn lemma_best_exists(start: (int, int), target: (int, int), moves: Seq<int>, map: Arena)
    requires
        leads(start, target, moves, map),
    ensures
        exists|best: Seq<int>| is_best_route(start, target, best, map),
    decreases moves.len(), if moves.len() > 0 { moves[0] } else { 0 },
{
    lemma_route_headings(start, moves, map);
    if !is_best_route(start, target, moves, map) {
        let other = choose|other: Seq<int>| #[trigger]
            leads(start, target, other, map) && !{
                &&& moves.len() <= other.len()
                &&& moves.len() == other.len() > 0 ==> moves[0] <= other[0]
            };
        lemma_route_headings(start, other, map);
        lemma_best_exists(start, target, other, map);
    }
}

/// The next step is one of the eight headings away, on an open point, or the
/// hero stays; and it stays only where it is at the target or cannot get there.
pub proof fn law_step_is_open(start: (int, int), target: (int, int), map: Arena)
    ensures
        next_step(start, target, map) == start <==> start == target || !reachable(
            start,
            target,
            map,
        ),
        next_step(start, target, map) != start ==> map.open(next_step(start, target, map))
            && exists|k: int| 0 <= k < 8 && next_step(start, target, map) == #[trigger] advance(start, k),
{
    if reachable(start, target, map) {
        let way = choose|moves: Seq<int>| leads(start, target, moves, map);
        lemma_best_exists(start, target, way, map);
        let best = choose|moves: Seq<int>| is_best_route(start, target, moves, map);
        if best.len() > 0 {
            lemma_route_tail(start, best, map);
            let here = Seq::<int>::empty();
            assert(is_route(start, here, map));
            if start == target {
                assert(leads(start, target, here, map));
            }
            assert(next_step(start, target, map) == advance(start, best[0]));
        }
    }
}

/// Each step towards a target that can be reached leaves a shortest route that
/// is one step shorter.
pub proof fn law_step_comes_closer(start: (int, int), target: (int, int), map: Arena)
    requires
        reachable(start, target, map),
        start != target,
    ensures
        reachable(next_step(start, target, map), target, map),
        shortest(next_step(start, target, map), target, map) + 1 == shortest(start, target, map),
{
    let way = choose|moves: Seq<int>| leads(start, target, moves, map);
    lemma_best_exists(start, target, way, map);
    let best = choose|moves: Seq<int>| is_best_route(start, target, moves, map);
    assert(is_best_route(start, target, best, map));
    let p = advance(start, best[0]);
    let rest = best.drop_first();
    lemma_route_tail(start, best, map);
    assert(leads(p, target, rest, map));
    lemma_best_exists(p, target, rest, map);
    let after = choose|moves: Seq<int>| is_best_route(p, target, moves, map);
    assert(is_best_route(p, target, after, map));
    lemma_route_cons(start, best[0], after, map);
    assert(leads(start, target, seq![best[0]] + after, map));
}

/// Following the next step turn by turn arrives at a target that can be
/// reached, after as many turns as a shortest route has steps.
pub proof fn law_following_arrives(start: (int, int), target: (int, int), map: Arena)
    requires
        reachable(start, target, map),
    ensures
        follow(start, target, map, shortest(start, target, map)) == target,
    decreases shortest(start, target, map),
{
    if start == target {
        let here = Seq::<int>::empty();
        assert(leads(start, target, here, map));
        lemma_best_exists(start, target, here, map);
        let best = choose|moves: Seq<int>| is_best_route(start, target, moves, map);
        assert(is_best_route(start, target, best, map));
    } else {
        law_step_comes_closer(start, target, map);
        law_following_arrives(next_step(start, target, map), target, map);
    }
}

/// A step goes three units along one axis or along both; the eight headings
/// are the four along one axis, first down and up, then right and left, and
/// then the diagonals, to the right before to the left and down before up.
pub proof fn law_headings(p: (int, int))
    ensures
        advance(p, 0) == (p.0, p.1 + 3),
        advance(p, 1) == (p.0, p.1 - 3),
        advance(p, 2) == (p.0 + 3, p.1),
        advance(p, 3) == (p.0 - 3, p.1),
        advance(p, 4) == (p.0 + 3, p.1 + 3),
        advance(p, 5) == (p.0 + 3, p.1 - 3),
        advance(p, 6) == (p.0 - 3, p.1 + 3),
        advance(p, 7) == (p.0 - 3, p.1 - 3),
{
}

/// The second point is one step from the first: three units away along one
/// axis or along both.
pub open spec fn is_step(p: (int, int), q: (int, int)) -> bool {
    &&& q.0 == p.0 - 3 || q.0 == p.0 || q.0 == p.0 + 3
    &&& q.1 == p.1 - 3 || q.1 == p.1 || q.1 == p.1 + 3
    &&& q != p
}

/// The points are those of a walk from the first to the last: each is one step
/// from the one before it, and all but the first are open.
pub open spec fn is_walk(points: Seq<(int, int)>, map: Arena) -> bool {
    &&& points.len() > 0
    &&& forall|i: int, j: int|
        #![trigger points[i], points[j]]
        0 <= i < points.len() && 0 <= j < points.len() && j == i + 1 ==> is_step(
            points[i],
            points[j],
        ) && map.open(points[j])
}

/// The points that a route goes through.
spec fn points_through(start: (int, int), moves: Seq<int>) -> Seq<(int, int)> {
    Seq::new((moves.len() + 1) as nat, |i: int| end_of(start, moves.take(i)))
}

/// A part of a route is a route.
proof fn lemma_route_part(start: (int, int), moves: Seq<int>, map: Arena, n: int)
    requires
        is_route(start, moves, map),
        0 <= n <= moves.len(),
    ensures
        is_route(start, moves.take(n), map),
    decreases moves.len() - n,
{
    if n < moves.len() {
        lemma_route_part(start, moves, map, n + 1);
        assert(moves.take(n + 1).drop_last() =~= moves.take(n));
    } else {
        assert(moves.take(n) =~= moves);
    }
}

/// A route is a walk through its points.
proof fn lemma_walk_of_route(start: (int, int), moves: Seq<int>, map: Arena)
    requires
        is_route(start, moves, map),
    ensures
        is_walk(points_through(start, moves), map),
        points_through(start, moves).len() == moves.len() + 1,
        points_through(start, moves)[0] == start,
        points_through(start, moves).last() == end_of(start, moves),
        moves.len() > 0 ==> points_through(start, moves)[1] == advance(start, moves[0]),
{
    let points = points_through(start, moves);
    assert(moves.take(0) =~= Seq::empty());
    assert(moves.take(moves.len() as int) =~= moves);
    assert forall|i: int, j: int|
        #![trigger points[i], points[j]]
        0 <= i < points.len() && 0 <= j < points.len() && j == i + 1 implies is_step(
        points[i],
        points[j],
    ) && map.open(points[j]) by {
        lemma_route_part(start, moves, map, j);
        assert(moves.take(j).drop_last() =~= moves.take(i));
        let k = moves.take(j).last();
        assert(points[j] == advance(points[i], k));
    }
    if moves.len() > 0 {
        assert(moves.take(1).drop_last() =~= Seq::empty());
        assert(moves.take(1).last() == moves[0]);
    }
}

/// A walk is a route through its points.
proof fn lemma_route_of_walk(points: Seq<(int, int)>, map: Arena) -> (moves: Seq<int>)
    requires
        is_walk(points, map),
    ensures
        leads(points[0], points.last(), moves, map),
        moves.len() == points.len() - 1,
        moves.len() > 0 ==> points[1] == advance(points[0], moves[0]),
    decreases points.len(),
{
    if points.len() == 1 {
        Seq::empty()
    } else {
        let shorter = points.drop_last();
        assert forall|i: int, j: int|
            #![trigger shorter[i], shorter[j]]
            0 <= i < shorter.len() && 0 <= j < shorter.len() && j == i + 1 implies is_step(
            shorter[i],
            shorter[j],
        ) && map.open(shorter[j]) by {
            assert(shorter[i] == points[i] && shorter[j] == points[j]);
        }
        let before = lemma_route_of_walk(shorter, map);
        let p = shorter.last();
        let q = points.last();
        assert(p == points[points.len() - 2]);
        assert(is_step(points[points.len() - 2], points[points.len() - 1]));
        let k = choose|k: int| 0 <= k < 8 && q == #[trigger] advance(p, k);
        assert(q == advance(p, 0) || q == advance(p, 1) || q == advance(p, 2) || q == advance(p, 3)
            || q == advance(p, 4) || q == advance(p, 5) || q == advance(p, 6) || q == advance(p, 7));
        let moves = before.push(k);
        assert(moves.drop_last() =~= before);
        assert(points[0] == shorter[0]);
        if before.len() > 0 {
            assert(points[1] == shorter[1]);
            assert(moves[0] == before[0]);
        }
        moves
    }
}

/// A target can be reached exactly if a walk goes there.
pub proof fn law_reachable_by_walking(start: (int, int), target: (int, int), map: Arena)
    ensures
        reachable(start, target, map) <==> exists|points: Seq<(int, int)>| #[trigger]
            is_walk(points, map) && points[0] == start && points.last() == target,
{
    if reachable(start, target, map) {
        let moves = choose|moves: Seq<int>| leads(start, target, moves, map);
        lemma_walk_of_route(start, moves, map);
        assert(is_walk(points_through(start, moves), map));
    }
    if exists|points: Seq<(int, int)>| #[trigger]
        is_walk(points, map) && points[0] == start && points.last() == target {
        let points = choose|points: Seq<(int, int)>| #[trigger]
            is_walk(points, map) && points[0] == start && points.last() == target;
        let moves = lemma_route_of_walk(points, map);
        assert(leads(start, target, moves, map));
    }
}

/// Given any walk to the target, the next step is the first of a walk there
/// that is no longer; and where it is as long, no walk of that length sets out
/// in an earlier heading.
pub proof fn law_step_begins_a_shortest_walk(
    start: (int, int),
    target: (int, int),
    map: Arena,
    points: Seq<(int, int)>,
)
    requires
        start != target,
        is_walk(points, map),
        points[0] == start,
        points.last() == target,
    ensures
        exists|best: Seq<(int, int)>|
            {
                &&& #[trigger] is_walk(best, map)
                &&& best[0] == start
                &&& best.last() == target
                &&& 1 < best.len() <= points.len()
                &&& best[1] == next_step(start, target, map)
            },
        exists|k: int, l: int|
            {
                &&& 0 <= k < 8
                &&& 0 <= l < 8
                &&& next_step(start, target, map) == #[trigger] advance(start, k)
                &&& points[1] == #[trigger] advance(start, l)
                &&& shortest(start, target, map) == points.len() - 1 ==> k <= l
            },
{
    let other = lemma_route_of_walk(points, map);
    assert(leads(start, target, other, map));
    lemma_best_exists(start, target, other, map);
    let moves = choose|moves: Seq<int>| is_best_route(start, target, moves, map);
    assert(is_best_route(start, target, moves, map));
    lemma_route_headings(start, moves, map);
    lemma_route_headings(start, other, map);
    lemma_next_step(start, target, moves, map);
    lemma_walk_of_route(start, moves, map);
    assert(is_walk(points_through(start, moves), map));
    assert(moves.len() > 0 && other.len() > 0);
    assert(next_step(start, target, map) == advance(start, moves[0]));
    assert(points[1] == advance(start, other[0]));
}

/// The shortest way is as long as some walk to the target, and no walk there
/// is shorter.
pub proof fn law_shortest_counts_steps(
    start: (int, int),
    target: (int, int),
    map: Arena,
    points: Seq<(int, int)>,
)
    requires
        is_walk(points, map),
        points[0] == start,
        points.last() == target,
    ensures
        shortest(start, target, map) <= points.len() - 1,
        exists|best: Seq<(int, int)>|
            {
                &&& #[trigger] is_walk(best, map)
                &&& best[0] == start
                &&& best.last() == target
                &&& best.len() == shortest(start, target, map) + 1
            },
{
    let other = lemma_route_of_walk(points, map);
    assert(leads(start, target, other, map));
    lemma_best_exists(start, target, other, map);
    let moves = choose|moves: Seq<int>| is_best_route(start, target, moves, map);
    assert(is_best_route(start, target, moves, map));
    lemma_walk_of_route(start, moves, map);
    assert(is_walk(points_through(start, moves), map));
}

} // verus!
