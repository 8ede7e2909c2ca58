//! A* search for a shortest path over the walkable cells of a world.

use crate::grid::{adjacent, connected, distance, flat, neighbor_of, shortest, walk, Grid};
use crate::grid::{flat_index, manhattan, neighbor};
use crate::grid::{law_manhattan_is_admissible, lemma_flat, lemma_flat_update, lemma_neighbors};
use crate::grid::{lemma_walk_last, lemma_walk_step};
use crate::open_set::{AStarNode, OpenSet};
use crate::tally::{count_true, fill, lemma_count_bound, lemma_count_none, lemma_count_set};
use crate::world::{Cell, Position, World};
use vstd::multiset::Multiset;
use vstd::prelude::*;

verus! {

/// Whether `path` leads from `start` step by step over free cells, through no
/// cell twice and never back to `start`.
pub open spec fn is_route(g: Grid, start: Position, path: Seq<Position>) -> bool {
    &&& forall|i: int|
        0 <= i < path.len() ==> {
            &&& g.is_free(#[trigger] path[i])
            &&& path[i] != start
            &&& adjacent(
                if i == 0 {
                    start
                } else {
                    path[i - 1]
                },
                path[i],
            )
        }
    &&& path.no_duplicates()
}

/// Whether `path` is a way from `start` to `goal` than which none is shorter:
/// the cells to go through, the goal last; nothing where `start` is the goal.
/// Among several such ways any will do.
pub open spec fn is_shortest_route(g: Grid, start: Position, goal: Position, path: Seq<Position>) -> bool {
    &&& is_route(g, start, path)
    &&& if start == goal {
        path.len() == 0
    } else {
        path.len() > 0 && path.last() == goal
    }
    &&& shortest(g, start, goal, path.len())
}

/// A route is a walk: its cell `i` is `i + 1` steps from the start.
pub proof fn lemma_route_is_walk(g: Grid, start: Position, path: Seq<Position>, i: int)
    requires
        is_route(g, start, path),
        0 <= i < path.len(),
    ensures
        walk(g, start, path[i], (i + 1) as nat),
    decreases i,
{
    assert(g.is_free(path[i]));
    if i == 0 {
        assert(walk(g, start, start, 0));
        lemma_walk_step(g, start, start, path[0], 0);
    } else {
        lemma_route_is_walk(g, start, path, i - 1);
        lemma_walk_step(g, start, path[i - 1], path[i], i as nat);
    }
}

/// A planned path goes from the start to the goal one cardinal step at a time,
/// over free cells only, and through none twice; from a cell to itself it is
/// empty.
pub proof fn law_planned_path_leads_there(g: Grid, start: Position, goal: Position, path: Seq<Position>, i: int, j: int)
    requires
        is_shortest_route(g, start, goal, path),
    ensures
        start == goal ==> path.len() == 0,
        start != goal ==> path.len() > 0 && path[path.len() - 1] == goal && adjacent(start, path[0]),
        0 < i < path.len() ==> adjacent(path[i - 1], path[i]),
        0 <= i < path.len() ==> g.is_free(path[i]) && path[i] != start,
        0 <= i < j < path.len() ==> path[i] != path[j],
{
    if 0 <= i < path.len() {
        assert(g.is_free(path[i]));
    }
}

/// No walk to the goal is shorter than a planned path, and a planned path is
/// never shorter than the Manhattan distance.
pub proof fn law_no_walk_is_shorter(g: Grid, start: Position, goal: Position, path: Seq<Position>, steps: nat)
    requires
        is_shortest_route(g, start, goal, path),
        walk(g, start, goal, steps),
    ensures
        path.len() <= steps,
        distance(start, goal) <= path.len(),
{
    if steps < path.len() {
        assert(!walk(g, start, goal, steps));
    }
    law_manhattan_is_admissible(g, start, goal, path.len());
}

/// What a search knows: the cells it has seen, with the fewest steps found so
/// far and where those come from, and the cells it is done with.
struct Survey {
    grid: Grid,
    start: Position,
    goal: Position,
    seen: Seq<bool>,
    closed: Seq<bool>,
    cost: Seq<usize>,
    prev: Seq<Position>,
}

impl Survey {
    spec fn at(self, p: Position) -> int {
        flat(self.grid.width as int, p)
    }

    spec fn is_seen(self, p: Position) -> bool {
        self.grid.holds(p) && self.seen[self.at(p)]
    }

    spec fn is_closed(self, p: Position) -> bool {
        self.grid.holds(p) && self.closed[self.at(p)]
    }

    spec fn is_open(self, p: Position) -> bool {
        self.is_seen(p) && !self.is_closed(p)
    }

    spec fn cost_of(self, p: Position) -> nat {
        self.cost[self.at(p)] as nat
    }

    spec fn from(self, p: Position) -> Position {
        self.prev[self.at(p)]
    }

    /// The steps to `p` plus the Manhattan estimate from there to the goal.
    spec fn score(self, p: Position) -> nat {
        self.cost_of(p) + distance(p, self.goal)
    }

    /// The buffers cover the map.
    spec fn sized(self) -> bool {
        &&& self.grid.wf()
        &&& self.grid.width <= usize::MAX
        &&& self.grid.height <= usize::MAX
        &&& self.seen.len() >= self.grid.free.len()
        &&& self.closed.len() == self.seen.len()
        &&& self.cost.len() == self.seen.len()
        &&& self.prev.len() == self.seen.len()
        &&& self.grid.holds(self.start)
    }

    /// What holds of one seen cell other than the start: it was come to from a
    /// closed cell, one step away.
    spec fn traced(self, p: Position) -> bool {
        &&& self.is_closed(self.from(p))
        &&& adjacent(self.from(p), p)
        &&& self.grid.is_free(p)
        &&& self.cost_of(p) == self.cost_of(self.from(p)) + 1
    }

    /// What holds of a search at every moment.
    spec fn inv(self) -> bool {
        &&& self.sized()
        &&& self.is_seen(self.start)
        &&& self.cost_of(self.start) == 0
        &&& forall|p: Position| #[trigger] self.is_closed(p) ==> self.is_seen(p)
        &&& forall|p: Position| #[trigger] self.is_seen(p) && p != self.start ==> self.traced(p)
        &&& forall|p: Position| #[trigger] self.is_closed(p) ==> shortest(self.grid, self.start, p, self.cost_of(p))
        &&& forall|p: Position| #[trigger] self.is_seen(p) ==> self.cost_of(p) <= count_true(self.closed)
        &&& forall|p: Position| #[trigger] self.is_closed(p) ==> self.cost_of(p) < count_true(self.closed)
    }

    /// Whether `q` is known to be no farther than one step behind `p`.
    spec fn covers(self, p: Position, q: Position) -> bool {
        self.is_seen(q) && self.cost_of(q) <= self.cost_of(p) + 1
    }

    /// Every free neighbour of a closed cell, but for those of `but`, is known
    /// to be no farther than one step behind it.
    spec fn spread(self, but: Option<Position>) -> bool {
        forall|p: Position, q: Position|
            #![trigger self.is_closed(p), adjacent(p, q)]
            self.is_closed(p) && Some(p) != but && adjacent(p, q) && self.grid.is_free(q) ==> self.covers(p, q)
    }

    /// The open set holds every open cell under its score, and nothing that is
    /// cheaper than the cell it stands for.
    spec fn queued(self, held: Multiset<AStarNode>) -> bool {
        &&& forall|p: Position|
            #[trigger] self.is_open(p) ==> held.count(AStarNode { f_cost: self.score(p) as u128, at: p }) > 0
        &&& forall|node: AStarNode|
            #[trigger] held.count(node) > 0 ==> self.is_seen(node.at) && node.f_cost >= self.score(node.at)
    }

    /// The search done with `p`.
    spec fn closing(self, p: Position) -> Survey {
        Survey { closed: self.closed.update(self.at(p), true), ..self }
    }

    /// The search with a better way found to `q`, through `p`.
    spec fn relaxing(self, p: Position, q: Position, cost: usize) -> Survey {
        Survey {
            seen: self.seen.update(self.at(q), true),
            cost: self.cost.update(self.at(q), cost),
            prev: self.prev.update(self.at(q), p),
            ..self
        }
    }
}

/// On every walk to a cell that is not closed lies an open cell, reached no
/// later than on that walk.
proof fn lemma_open_on_walk(s: Survey, p: Position, k: nat) -> (found: (Position, nat))
    requires
        s.inv(),
        s.spread(None),
        walk(s.grid, s.start, p, k),
        !s.is_closed(p),
    ensures
        s.is_open(found.0),
        found.1 <= k,
        s.cost_of(found.0) <= found.1,
        walk(s.grid, found.0, p, (k - found.1) as nat),
    decreases k,
{
    if k == 0 {
        assert(walk(s.grid, p, p, 0));
        (p, 0)
    } else {
        let before = lemma_walk_last(s.grid, s.start, p, k);
        if s.is_closed(before) {
            assert(shortest(s.grid, s.start, before, s.cost_of(before)));
            assert(s.cost_of(before) <= k - 1);
            assert(s.covers(before, p));
            assert(walk(s.grid, p, p, 0));
            (p, k)
        } else {
            let (open, steps) = lemma_open_on_walk(s, before, (k - 1) as nat);
            lemma_walk_step(s.grid, open, before, p, (k - 1 - steps) as nat);
            (open, steps)
        }
    }
}

/// A seen cell has been walked to in as many steps as its cost.
proof fn lemma_cost_is_walk(s: Survey, p: Position)
    requires
        s.inv(),
        s.is_seen(p),
    ensures
        walk(s.grid, s.start, p, s.cost_of(p)),
{
    if p != s.start {
        assert(s.traced(p));
        assert(s.is_closed(s.from(p)));
        lemma_walk_step(s.grid, s.start, s.from(p), p, s.cost_of(s.from(p)));
    } else {
        assert(walk(s.grid, s.start, s.start, 0));
    }
}

/// A cheapest open cell has been reached by a shortest walk.
proof fn lemma_cheapest_is_shortest(s: Survey, held: Multiset<AStarNode>, node: AStarNode)
    requires
        s.inv(),
        s.spread(None),
        s.queued(held),
        held.count(node) > 0,
        forall|other: AStarNode| #[trigger] held.count(other) > 0 ==> node.f_cost <= other.f_cost,
        !s.is_closed(node.at),
    ensures
        s.is_open(node.at),
        shortest(s.grid, s.start, node.at, s.cost_of(node.at)),
{
    let p = node.at;
    assert(s.is_open(p));
    lemma_cost_is_walk(s, p);
    assert forall|k: nat| k < s.cost_of(p) implies !walk(s.grid, s.start, p, k) by {
        if walk(s.grid, s.start, p, k) {
            let (open, steps) = lemma_open_on_walk(s, p, k);
            law_manhattan_is_admissible(s.grid, open, p, (k - steps) as nat);
            assert(distance(open, s.goal) <= distance(open, p) + distance(p, s.goal));
            assert(held.count(AStarNode { f_cost: s.score(open) as u128, at: open }) > 0);
            assert(node.f_cost <= s.score(open));
            assert(node.f_cost >= s.score(p));
        }
    }
}

/// Once no cell is open, a goal that is not closed cannot be reached.
proof fn lemma_exhausted(s: Survey, held: Multiset<AStarNode>)
    requires
        s.inv(),
        s.spread(None),
        s.queued(held),
        held == Multiset::<AStarNode>::empty(),
        !s.is_closed(s.goal),
    ensures
        !connected(s.grid, s.start, s.goal),
{
    if connected(s.grid, s.start, s.goal) {
        let steps = choose|steps: nat| walk(s.grid, s.start, s.goal, steps);
        let (open, _) = lemma_open_on_walk(s, s.goal, steps);
        assert(held.count(AStarNode { f_cost: s.score(open) as u128, at: open }) > 0);
    }
}

/// Closing a cell that has been reached by a shortest walk.
proof fn lemma_closing(s: Survey, held: Multiset<AStarNode>, node: AStarNode)
    requires
        s.inv(),
        s.spread(None),
        s.queued(held),
        s.is_open(node.at),
        shortest(s.grid, s.start, node.at, s.cost_of(node.at)),
    ensures
        s.closing(node.at).inv(),
        s.closing(node.at).spread(Some(node.at)),
        s.closing(node.at).queued(held.remove(node)),
        count_true(s.closing(node.at).closed) == count_true(s.closed) + 1,
{
    let p = node.at;
    let t = s.closing(p);
    let w = s.grid.width as int;
    let h = s.grid.height as int;
    lemma_flat(w, h, p);
    lemma_flat_update(w, h, s.closed, p, true);
    lemma_count_set(s.closed, s.at(p));
    assert forall|q: Position| t.is_closed(q) == (#[trigger] s.is_closed(q) || q == p) by {
        if s.grid.holds(q) && q != p {
            assert(t.closed[flat(w, q)] == s.closed[flat(w, q)]);
        }
    }
    assert forall|q: Position| #[trigger] t.is_seen(q) == s.is_seen(q) by {}
    assert forall|q: Position| #[trigger] t.is_seen(q) && q != t.start implies t.traced(q) by {
        assert(s.is_seen(q));
        assert(s.traced(q));
        assert(s.is_closed(s.from(q)));
    }
    assert forall|q: Position| #[trigger] t.is_closed(q) implies t.is_seen(q) && shortest(
        t.grid,
        t.start,
        q,
        t.cost_of(q),
    ) && t.cost_of(q) < count_true(t.closed) by {
        if q != p {
            assert(s.is_closed(q));
        }
    }
    assert forall|q: Position| #[trigger] t.is_seen(q) implies t.cost_of(q) <= count_true(t.closed) by {
        assert(s.is_seen(q));
    }
    assert forall|a: Position, b: Position|
        #![trigger t.is_closed(a), adjacent(a, b)]
        t.is_closed(a) && Some(a) != Some(p) && adjacent(a, b) && t.grid.is_free(b) implies t.covers(a, b) by {
        assert(s.is_closed(a));
        assert(s.covers(a, b));
    }
    assert forall|q: Position| #[trigger] t.is_open(q) implies held.remove(node).count(
        AStarNode { f_cost: t.score(q) as u128, at: q },
    ) > 0 by {
        assert(t.is_closed(q) == (s.is_closed(q) || q == p));
        assert(s.is_open(q));
    }
    assert forall|other: AStarNode| #[trigger] held.remove(node).count(other) > 0 implies t.is_seen(other.at)
        && other.f_cost >= t.score(other.at) by {
        assert(held.count(other) > 0);
    }
}

/// Leaving out a node of a cell that is closed already.
proof fn lemma_skipping(s: Survey, held: Multiset<AStarNode>, node: AStarNode)
    requires
        s.queued(held),
        s.is_closed(node.at),
    ensures
        s.queued(held.remove(node)),
{
    assert forall|q: Position| #[trigger] s.is_open(q) implies held.remove(node).count(
        AStarNode { f_cost: s.score(q) as u128, at: q },
    ) > 0 by {
        assert(q != node.at);
    }
    assert forall|other: AStarNode| #[trigger] held.remove(node).count(other) > 0 implies s.is_seen(other.at)
        && other.f_cost >= s.score(other.at) by {
        assert(held.count(other) > 0);
    }
}

/// Finding a better way to `q`, one step behind the closed cell `p`.
proof fn lemma_relaxing(s: Survey, held: Multiset<AStarNode>, p: Position, q: Position, cost: usize, node: AStarNode)
    requires
        s.inv(),
        s.spread(Some(p)),
        s.queued(held),
        s.is_closed(p),
        adjacent(p, q),
        s.grid.is_free(q),
        !s.is_closed(q),
        cost == s.cost_of(p) + 1,
        !s.is_seen(q) || cost < s.cost_of(q),
        node.at == q,
        node.f_cost == cost + distance(q, s.goal),
    ensures
        s.relaxing(p, q, cost).inv(),
        s.relaxing(p, q, cost).spread(Some(p)),
        s.relaxing(p, q, cost).queued(held.insert(node)),
        s.relaxing(p, q, cost).covers(p, q),
        forall|r: Position| #[trigger] s.covers(p, r) ==> s.relaxing(p, q, cost).covers(p, r),
{
    let t = s.relaxing(p, q, cost);
    let w = s.grid.width as int;
    let h = s.grid.height as int;
    lemma_flat(w, h, q);
    lemma_flat_update(w, h, s.seen, q, true);
    lemma_flat_update(w, h, s.cost, q, cost);
    lemma_flat_update(w, h, s.prev, q, p);
    assert forall|r: Position| #[trigger] t.is_closed(r) == s.is_closed(r) by {}
    assert forall|r: Position| #[trigger] t.is_seen(r) == (s.is_seen(r) || r == q) by {
        if s.grid.holds(r) && r != q {
            assert(t.seen[flat(w, r)] == s.seen[flat(w, r)]);
        }
    }
    assert forall|r: Position| s.grid.holds(r) && r != q implies #[trigger] t.cost_of(r) == s.cost_of(r) && t.from(r)
        == s.from(r) by {
        assert(t.cost[flat(w, r)] == s.cost[flat(w, r)]);
        assert(t.prev[flat(w, r)] == s.prev[flat(w, r)]);
    }
    assert(q != s.start);
    assert(s.is_seen(p));
    assert(t.cost_of(p) == s.cost_of(p));
    assert forall|r: Position| #[trigger] t.is_seen(r) && r != t.start implies t.traced(r) by {
        if r != q {
            assert(s.is_seen(r));
            assert(s.traced(r));
            assert(s.is_closed(s.from(r)));
            assert(t.cost_of(r) == s.cost_of(r));
            assert(t.cost_of(s.from(r)) == s.cost_of(s.from(r)));
        }
    }
    assert forall|r: Position| #[trigger] t.is_closed(r) implies t.is_seen(r) && shortest(
        t.grid,
        t.start,
        r,
        t.cost_of(r),
    ) && t.cost_of(r) < count_true(t.closed) by {
        assert(s.is_closed(r));
        assert(t.cost_of(r) == s.cost_of(r));
    }
    assert forall|r: Position| #[trigger] t.is_seen(r) implies t.cost_of(r) <= count_true(t.closed) by {
        if r != q {
            assert(s.is_seen(r));
            assert(t.cost_of(r) == s.cost_of(r));
        }
    }
    assert forall|a: Position, b: Position|
        #![trigger t.is_closed(a), adjacent(a, b)]
        t.is_closed(a) && Some(a) != Some(p) && adjacent(a, b) && t.grid.is_free(b) implies t.covers(a, b) by {
        assert(s.is_closed(a));
        assert(s.covers(a, b));
        assert(t.cost_of(a) == s.cost_of(a));
        if b != q {
            assert(t.cost_of(b) == s.cost_of(b));
        }
    }
    assert forall|r: Position| #[trigger] t.is_open(r) implies held.insert(node).count(
        AStarNode { f_cost: t.score(r) as u128, at: r },
    ) > 0 by {
        if r != q {
            assert(t.is_seen(r) && !t.is_closed(r));
            assert(s.is_open(r));
            assert(t.cost_of(r) == s.cost_of(r));
        } else {
            assert(t.score(r) == node.f_cost);
        }
    }
    assert forall|other: AStarNode| #[trigger] held.insert(node).count(other) > 0 implies t.is_seen(other.at)
        && other.f_cost >= t.score(other.at) by {
        if other != node {
            assert(held.count(other) > 0);
            if other.at != q {
                assert(t.cost_of(other.at) == s.cost_of(other.at));
            }
        }
    }
    assert forall|r: Position| #[trigger] s.covers(p, r) implies t.covers(p, r) by {
        if r != q {
            assert(t.cost_of(r) == s.cost_of(r));
        }
    }
}

/// A neighbour that is closed already is known to be near enough.
proof fn lemma_closed_is_no_farther(s: Survey, p: Position, q: Position)
    requires
        s.inv(),
        s.is_closed(p),
        adjacent(p, q),
        s.grid.is_free(q),
    ensures
        s.is_closed(q) ==> s.covers(p, q),
{
    if s.is_closed(q) {
        assert(shortest(s.grid, s.start, p, s.cost_of(p)));
        assert(shortest(s.grid, s.start, q, s.cost_of(q)));
        lemma_walk_step(s.grid, s.start, p, q, s.cost_of(p));
    }
}

/// All four directions looked at, nothing is left out.
proof fn lemma_spread_whole(s: Survey, p: Position)
    requires
        s.sized(),
        s.spread(Some(p)),
        forall|dir: int, q: Position|
            0 <= dir < 4 && #[trigger] neighbor_of(s.grid.width as int, s.grid.height as int, p, dir) == Some(q)
                && #[trigger] s.grid.is_free(q) ==> s.covers(p, q),
    ensures
        s.spread(None),
{
    assert forall|a: Position, b: Position|
        #![trigger s.is_closed(a), adjacent(a, b)]
        s.is_closed(a) && adjacent(a, b) && s.grid.is_free(b) implies s.covers(a, b) by {
        if a == p {
            lemma_neighbors(s.grid.width as int, s.grid.height as int, p, b);
        }
    }
}

/// Scratch buffers of the search, allocated once and reused for every plan.
pub struct Pathfinder {
    seen: Vec<bool>,
    closed: Vec<bool>,
    prev: Vec<Position>,
    cost: Vec<usize>,
}

impl Pathfinder {
    /// The number of cells that the buffers cover.
    pub closed spec fn size(&self) -> nat {
        self.seen@.len()
    }

    /// The buffers are of one size.
    pub closed spec fn wf(&self) -> bool {
        &&& self.closed@.len() == self.seen@.len()
        &&& self.prev@.len() == self.seen@.len()
        &&& self.cost@.len() == self.seen@.len()
    }

    /// What the buffers say of a search.
    spec fn survey(&self, grid: Grid, start: Position, goal: Position) -> Survey {
        Survey {
            grid,
            start,
            goal,
            seen: self.seen@,
            closed: self.closed@,
            cost: self.cost@,
            prev: self.prev@,
        }
    }

    /// Buffers for a map of up to `map_size` cells.
    pub fn new(map_size: usize) -> (finder: Self)
        ensures
            finder.wf(),
            finder.size() == map_size,
    {
        Pathfinder {
            seen: vec![false; map_size],
            closed: vec![false; map_size],
            prev: vec![Position { x: 0, y: 0 }; map_size],
            cost: vec![0; map_size],
        }
    }

    /// A* search from `start` to `goal` with the Manhattan estimate. Returns a
    /// shortest way, the cells to go through with the goal last, or `None` where
    /// the goal cannot be reached.
    pub fn plan(&mut self, world: &World, start: Position, goal: Position) -> (path: Option<Vec<Position>>)
        requires
            world.wf(),
            old(self).wf(),
            start != goal ==> old(self).size() >= world@.cells.len() && world@.holds(start),
        ensures
            final(self).wf(),
            final(self).size() == old(self).size(),
            match path {
                Some(path) => is_shortest_route(world@.grid(), start, goal, path@),
                None => !connected(world@.grid(), start, goal),
            },
    {
        let width = world.width();
        let height = world.height();
        let ghost w = width as int;
        let ghost h = height as int;
        let ghost g = world@.grid();
        if start == goal {
            assert(walk(g, start, goal, 0));
            return Some(Vec::new());
        }
        fill(&mut self.seen, false);
        fill(&mut self.closed, false);
        proof {
            lemma_count_none(self.closed@);
            lemma_flat(w, h, start);
            lemma_flat_update(w, h, self.seen@, start, true);
        }
        let start_idx = flat_index(width, height, start);
        self.seen[start_idx] = true;
        self.cost[start_idx] = 0;
        let mut open = OpenSet::new();
        open.push(AStarNode { f_cost: manhattan(start, goal), at: start });
        proof {
            let s = self.survey(g, start, goal);
            assert forall|p: Position| #[trigger] s.is_seen(p) implies p == start by {
                lemma_flat(w, h, p);
            }
            assert forall|p: Position| !#[trigger] s.is_closed(p) by {
                if g.holds(p) {
                    lemma_flat(w, h, p);
                }
            }
        }

        loop
            invariant
                world.wf(),
                w == width,
                h == height,
                w == world@.width,
                h == world@.height,
                g == world@.grid(),
                start != goal,
                open.wf(),
                self.survey(g, start, goal).inv(),
                self.survey(g, start, goal).spread(None),
                self.survey(g, start, goal).queued(open.held()),
                !self.survey(g, start, goal).is_closed(goal),
                self.wf(),
                self.size() == old(self).size(),
            decreases self.closed@.len() - count_true(self.closed@), open.held().len(),
        {
            let ghost s = self.survey(g, start, goal);
            let ghost held = open.held();
            proof {
                lemma_count_bound(self.closed@);
            }
            let node = match open.pop() {
                Some(node) => node,
                None => {
                    proof {
                        lemma_exhausted(s, held);
                    }
                    return None;
                },
            };
            let cur = node.at;
            assert(s.is_seen(cur));
            proof {
                lemma_flat(w, h, cur);
            }
            let cur_idx = flat_index(width, height, cur);
            if self.closed[cur_idx] {
                // A cheaper way here was found after this node had been queued.
                proof {
                    assert(s.is_closed(cur));
                    lemma_skipping(s, held, node);
                }
                continue ;
            }
            proof {
                lemma_cheapest_is_shortest(s, held, node);
            }
            if cur == goal {
                let path = self.trace(world, start, goal);
                return Some(path);
            }
            proof {
                lemma_closing(s, held, node);
                lemma_count_bound(s.closing(cur).closed);
            }
            self.closed[cur_idx] = true;
            assert(self.survey(g, start, goal) == s.closing(cur));
            assert(self.survey(g, start, goal).is_closed(cur));
            assert(!self.survey(g, start, goal).is_closed(goal)) by {
                lemma_flat_update(w, h, s.closed, cur, true);
                if g.holds(goal) {
                    assert(s.closing(cur).closed[flat(w, goal)] == s.closed[flat(w, goal)]);
                }
            }
            self.expand(world, Ghost(start), goal, cur, &mut open);
        }
    }

    /// Looks at the neighbours of the cell `cur`, which has just been closed, and
    /// queues those to which the way through it is the best so far.
    fn expand(&mut self, world: &World, Ghost(start): Ghost<Position>, goal: Position, cur: Position, open: &mut OpenSet)
        requires
            world.wf(),
            old(open).wf(),
            old(self).wf(),
            old(self).survey(world@.grid(), start, goal).inv(),
            old(self).survey(world@.grid(), start, goal).spread(Some(cur)),
            old(self).survey(world@.grid(), start, goal).queued(old(open).held()),
            old(self).survey(world@.grid(), start, goal).is_closed(cur),
        ensures
            final(open).wf(),
            final(self).wf(),
            final(self).size() == old(self).size(),
            final(self).closed == old(self).closed,
            final(self).survey(world@.grid(), start, goal).inv(),
            final(self).survey(world@.grid(), start, goal).spread(None),
            final(self).survey(world@.grid(), start, goal).queued(final(open).held()),
    {
        let width = world.width();
        let height = world.height();
        let ghost w = width as int;
        let ghost h = height as int;
        let ghost g = world@.grid();
        let cur_idx = flat_index(width, height, cur);
        proof {
            lemma_flat(w, h, cur);
            lemma_count_bound(self.closed@);
            assert(self.survey(g, start, goal).is_closed(cur));
            assert(self.cost@[cur_idx as int] < count_true(self.closed@) <= self.closed.len());
        }
        let next_cost = self.cost[cur_idx] + 1;
        for dir in 0..4usize
            invariant
                world.wf(),
                w == width,
                h == height,
                w == world@.width,
                h == world@.height,
                g == world@.grid(),
                open.wf(),
                self.survey(g, start, goal).inv(),
                self.survey(g, start, goal).spread(Some(cur)),
                self.survey(g, start, goal).queued(open.held()),
                self.survey(g, start, goal).is_closed(cur),
                next_cost == self.survey(g, start, goal).cost_of(cur) + 1,
                self.wf(),
                self.size() == old(self).size(),
                self.closed == old(self).closed,
                forall|d: int, q: Position|
                    0 <= d < dir && #[trigger] neighbor_of(w, h, cur, d) == Some(q) && #[trigger] g.is_free(q)
                        ==> self.survey(g, start, goal).covers(cur, q),
        {
            let ghost s = self.survey(g, start, goal);
            if let Some(next) = neighbor(width, height, cur, dir) {
                let idx = flat_index(width, height, next);
                let walkable = match world.cell(next) {
                    Some(cell) => cell == Cell::Walkable,
                    None => false,
                };
                proof {
                    lemma_flat(w, h, next);
                    assert(g.is_free(next) == walkable);
                    assert(neighbor_of(w, h, cur, dir as int) == Some(next));
                    lemma_neighbors(w, h, cur, next);
                    if walkable {
                        lemma_closed_is_no_farther(s, cur, next);
                    }
                }
                if walkable && !self.closed[idx] && (!self.seen[idx] || next_cost < self.cost[idx]) {
                    let fresh = AStarNode { f_cost: next_cost as u128 + manhattan(next, goal), at: next };
                    proof {
                        lemma_relaxing(s, open.held(), cur, next, next_cost, fresh);
                        lemma_flat_update(w, h, s.cost, next, next_cost);
                    }
                    self.seen[idx] = true;
                    self.cost[idx] = next_cost;
                    self.prev[idx] = cur;
                    open.push(fresh);
                    assert(self.survey(g, start, goal) == s.relaxing(cur, next, next_cost));
                    assert(self.cost@[flat(w, cur)] == s.cost[flat(w, cur)]);
                }
            }
        }
        proof {
            lemma_spread_whole(self.survey(g, start, goal), cur);
        }
    }

    /// The cells from `start` to `goal`, followed back from the goal.
    fn trace(&self, world: &World, start: Position, goal: Position) -> (path: Vec<Position>)
        requires
            world.wf(),
            start != goal,
            self.survey(world@.grid(), start, goal).inv(),
            self.survey(world@.grid(), start, goal).is_seen(goal),
        ensures
            path@.len() == self.survey(world@.grid(), start, goal).cost_of(goal),
            path@.len() > 0,
            path@.last() == goal,
            is_route(world@.grid(), start, path@),
    {
        let width = world.width();
        let height = world.height();
        let ghost g = world@.grid();
        let ghost s = self.survey(g, start, goal);
        let mut backward: Vec<Position> = Vec::new();
        let mut cursor = goal;
        while cursor != start
            invariant
                world.wf(),
                width == world@.width,
                height == world@.height,
                g == world@.grid(),
                s == self.survey(g, start, goal),
                s.inv(),
                s.is_seen(cursor),
                backward@.len() + s.cost_of(cursor) == s.cost_of(goal),
                backward@.len() == 0 ==> cursor == goal,
                backward@.len() > 0 ==> backward@[0] == goal,
                forall|i: int|
                    0 <= i < backward@.len() ==> {
                        &&& s.is_seen(#[trigger] backward@[i])
                        &&& backward@[i] != start
                        &&& s.cost_of(backward@[i]) == s.cost_of(goal) - i
                        &&& s.from(backward@[i]) == if i + 1 < backward@.len() {
                            backward@[i + 1]
                        } else {
                            cursor
                        }
                    },
            decreases s.cost_of(cursor),
        {
            assert(s.traced(cursor));
            assert(s.is_closed(s.from(cursor)));
            backward.push(cursor);
            proof {
                lemma_flat(width as int, height as int, cursor);
            }
            let idx = flat_index(width, height, cursor);
            cursor = self.prev[idx];
        }
        let n = backward.len();
        let mut path: Vec<Position> = Vec::with_capacity(n);
        for k in 0..n
            invariant
                n == backward@.len(),
                path@.len() == k,
                forall|i: int| 0 <= i < k ==> path@[i] == backward@[n - 1 - i],
        {
            path.push(backward[n - 1 - k]);
        }
        proof {
            assert forall|i: int| 0 <= i < path@.len() implies {
                &&& g.is_free(#[trigger] path@[i])
                &&& path@[i] != start
                &&& adjacent(
                    if i == 0 {
                        start
                    } else {
                        path@[i - 1]
                    },
                    path@[i],
                )
            } by {
                assert(path@[i] == backward@[n - 1 - i]);
                assert(s.traced(path@[i]));
                if i > 0 {
                    assert(path@[i - 1] == backward@[n - i]);
                }
            }
            assert forall|i: int, j: int| 0 <= i < path@.len() && 0 <= j < path@.len() && i != j implies path@[i]
                != path@[j] by {
                assert(path@[i] == backward@[n - 1 - i]);
                assert(path@[j] == backward@[n - 1 - j]);
            }
        }
        path
    }
}

} // verus!
