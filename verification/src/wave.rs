//! Breadth-first search for the first step of a shortest walk.

use crate::grid::{adjacent, connected, flat, neighbor_of, shortest, walk, Grid};
use crate::grid::{flat_index, neighbor};
use crate::grid::{lemma_flat, lemma_flat_update, lemma_neighbors};
use crate::grid::{lemma_walk_first, lemma_walk_join, lemma_walk_last, lemma_walk_step};
use crate::tally::{count_true, lemma_count_bound, lemma_count_none, lemma_count_set};
use crate::world::Position;
use vstd::prelude::*;

verus! {

/// Whether a step from `start` in direction `dir` enters a free cell from which
/// `steps` more lead to `goal`.
pub open spec fn leads(g: Grid, start: Position, goal: Position, dir: int, steps: nat) -> bool {
    match neighbor_of(g.width as int, g.height as int, start, dir) {
        Some(n) => g.is_free(n) && walk(g, n, goal, steps),
        None => false,
    }
}

/// The first direction, north, east, south or west, in which a shortest walk
/// from `start` to `goal` sets out.
pub open spec fn first_direction(g: Grid, start: Position, goal: Position) -> int {
    let steps = (choose|steps: nat| shortest(g, start, goal, steps)) - 1;
    if leads(g, start, goal, 0, steps as nat) {
        0
    } else if leads(g, start, goal, 1, steps as nat) {
        1
    } else if leads(g, start, goal, 2, steps as nat) {
        2
    } else {
        3
    }
}

/// The cell to step into on the way from `start` to `goal`, if there is any.
pub open spec fn next_step(g: Grid, start: Position, goal: Position) -> Option<Position> {
    if start == goal || !connected(g, start, goal) {
        None
    } else {
        neighbor_of(g.width as int, g.height as int, start, first_direction(g, start, goal))
    }
}

/// The cells known to be walkable, as a graph.
pub open spec fn known_grid(width: nat, height: nat, explored: Seq<bool>, obstacle: Seq<bool>) -> Grid {
    Grid { width, height, free: Seq::new(explored.len(), |i: int| explored[i] && !obstacle[i]) }
}

/// A step on the way to a goal enters a free neighbour, and brings the goal
/// one step closer.
pub proof fn law_next_step_is_closer(g: Grid, start: Position, goal: Position, steps: nat)
    requires
        g.width <= usize::MAX,
        g.height <= usize::MAX,
        start != goal,
        shortest(g, start, goal, steps),
    ensures
        next_step(g, start, goal) matches Some(n) && {
            &&& g.is_free(n)
            &&& adjacent(start, n)
            &&& shortest(g, n, goal, (steps - 1) as nat)
        },
{
    lemma_direction(g, start, goal, steps);
    let dir = first_direction(g, start, goal);
    let n = neighbor_of(g.width as int, g.height as int, start, dir)->0;
    lemma_neighbors(g.width as int, g.height as int, start, n);
    assert forall|fewer: nat| fewer < steps - 1 implies !walk(g, n, goal, fewer) by {
        if walk(g, n, goal, fewer) {
            assert(walk(g, start, start, 0));
            lemma_walk_step(g, start, start, n, 0);
            lemma_walk_join(g, start, n, goal, 1, fewer);
            assert(!walk(g, start, goal, fewer + 1));
        }
    }
}

/// The fewest steps are one number.
proof fn lemma_shortest_unique(g: Grid, a: Position, b: Position, m: nat, n: nat)
    requires
        shortest(g, a, b, m),
        shortest(g, a, b, n),
    ensures
        m == n,
{
    if m < n {
        assert(!walk(g, a, b, m));
    } else if n < m {
        assert(!walk(g, a, b, n));
    }
}

/// The first direction leads to the goal, and none before it does.
proof fn lemma_direction(g: Grid, start: Position, goal: Position, steps: nat)
    requires
        g.width <= usize::MAX,
        g.height <= usize::MAX,
        start != goal,
        shortest(g, start, goal, steps),
    ensures
        steps > 0,
        0 <= first_direction(g, start, goal) < 4,
        leads(g, start, goal, first_direction(g, start, goal), (steps - 1) as nat),
        forall|dir: int|
            0 <= dir < first_direction(g, start, goal) ==> !#[trigger] leads(g, start, goal, dir, (steps - 1) as nat),
{
    let chosen = choose|chosen: nat| shortest(g, start, goal, chosen);
    lemma_shortest_unique(g, start, goal, chosen, steps);
    let n = lemma_walk_first(g, start, goal, steps);
    lemma_neighbors(g.width as int, g.height as int, start, n);
    let dir = choose|dir: int|
        0 <= dir < 4 && #[trigger] neighbor_of(g.width as int, g.height as int, start, dir) == Some(n);
    assert(leads(g, start, goal, dir, (steps - 1) as nat));
}

/// Cells in the order in which a breadth-first search came to them, with the
/// number of steps to each and the direction in which those steps set out.
struct Wave {
    cells: Seq<Position>,
    depth: Seq<nat>,
    branch: Seq<int>,
}

impl Wave {
    spec fn len(self) -> nat {
        self.cells.len()
    }

    /// The entries before `head` have been expanded.
    spec fn inv(self, g: Grid, start: Position, head: int) -> bool {
        &&& self.cells.len() == self.depth.len()
        &&& self.cells.len() == self.branch.len()
        &&& self.cells.len() > 0
        &&& 0 <= head <= self.cells.len()
        &&& self.cells[0] == start
        &&& self.depth[0] == 0
        &&& forall|i: int, j: int| 0 <= i < j < self.len() ==> #[trigger] self.cells[i] != #[trigger] self.cells[j]
        &&& forall|i: int|
            0 <= i < self.len() ==> g.holds(#[trigger] self.cells[i]) && shortest(
                g,
                start,
                self.cells[i],
                self.depth[i],
            )
        &&& forall|i: int| 0 < i < self.len() ==> self.branched(g, start, #[trigger] self.cells[i], i)
        &&& forall|i: int, j: int|
            0 <= i < j < self.len() ==> #[trigger] self.depth[i] < #[trigger] self.depth[j] || (self.depth[i]
                == self.depth[j] && self.branch[i] <= self.branch[j])
        &&& forall|i: int, p: Position|
            #![trigger self.cells[i], g.is_free(p)]
            0 <= i < head && adjacent(self.cells[i], p) && g.is_free(p) ==> self.cells.contains(p)
        &&& head < self.len() ==> forall|i: int|
            0 <= i < self.len() ==> #[trigger] self.depth[i] <= self.depth[head] + 1
    }

    /// Entry `i` was come to by the first direction that leads there.
    spec fn branched(self, g: Grid, start: Position, p: Position, i: int) -> bool {
        &&& self.depth[i] > 0
        &&& 0 <= self.branch[i] < 4
        &&& leads(g, start, p, self.branch[i], (self.depth[i] - 1) as nat)
        &&& forall|dir: int|
            0 <= dir < self.branch[i] ==> !#[trigger] leads(g, start, p, dir, (self.depth[i] - 1) as nat)
    }

    /// The entries one step beyond `head` set out no later than `head` did;
    /// those beyond the start itself in a direction below `dir`.
    spec fn fan(self, head: int, dir: int) -> bool {
        forall|i: int|
            0 <= i < self.len() && #[trigger] self.depth[i] == self.depth[head] + 1 ==> self.branch[i] <= if head == 0 {
                dir - 1
            } else {
                self.branch[head]
            }
    }

    spec fn pushed(self, p: Position, depth: nat, branch: int) -> Wave {
        Wave { cells: self.cells.push(p), depth: self.depth.push(depth), branch: self.branch.push(branch) }
    }
}

/// Whatever is no farther than the next entry to expand has been seen.
proof fn lemma_level(w: Wave, g: Grid, start: Position, head: int, p: Position, k: nat)
    requires
        w.inv(g, start, head),
        head < w.len() ==> k <= w.depth[head],
        walk(g, start, p, k),
    ensures
        w.cells.contains(p),
    decreases k,
{
    if k == 0 {
        assert(w.cells[0] == p);
    } else {
        let before = lemma_walk_last(g, start, p, k);
        lemma_level(w, g, start, head, before, (k - 1) as nat);
        let j = choose|j: int| 0 <= j < w.len() && w.cells[j] == before;
        assert(shortest(g, start, w.cells[j], w.depth[j]));
        assert(w.depth[j] <= k - 1);
        if head < w.len() && head < j {
            assert(w.depth[head] <= w.depth[j]);
        }
        assert(j < head);
        assert(g.is_free(p));
    }
}

/// Coming to a cell for the first time.
proof fn lemma_push(w: Wave, g: Grid, start: Position, head: int, dir: int, p: Position)
    requires
        g.width <= usize::MAX,
        g.height <= usize::MAX,
        w.inv(g, start, head),
        head < w.len(),
        w.fan(head, dir),
        0 <= dir < 4,
        neighbor_of(g.width as int, g.height as int, w.cells[head], dir) == Some(p),
        g.is_free(p),
        !w.cells.contains(p),
    ensures
        ({
            let branch = if head == 0 {
                dir
            } else {
                w.branch[head]
            };
            let next = w.pushed(p, w.depth[head] + 1, branch);
            next.inv(g, start, head) && next.fan(head, dir + 1)
        }),
{
    let cur = w.cells[head];
    let d = w.depth[head];
    let branch = if head == 0 {
        dir
    } else {
        w.branch[head]
    };
    let next = w.pushed(p, d + 1, branch);
    lemma_neighbors(g.width as int, g.height as int, cur, p);
    assert(adjacent(cur, p));
    assert(shortest(g, start, cur, d));
    lemma_walk_step(g, start, cur, p, d);
    assert forall|fewer: nat| fewer < d + 1 implies !walk(g, start, p, fewer) by {
        if walk(g, start, p, fewer) {
            lemma_level(w, g, start, head, p, fewer);
        }
    }
    assert(shortest(g, start, p, d + 1));
    if head == 0 {
        assert(cur == start && d == 0);
        assert(walk(g, p, p, 0));
        assert(leads(g, start, p, dir, 0));
        assert forall|b: int| 0 <= b < dir implies !#[trigger] leads(g, start, p, b, 0) by {
            if leads(g, start, p, b, 0) {
                assert(neighbor_of(g.width as int, g.height as int, start, b) == Some(p));
            }
        }
    } else {
        assert(w.branched(g, start, w.cells[head], head));
        let n = neighbor_of(g.width as int, g.height as int, start, branch)->0;
        lemma_walk_step(g, n, cur, p, (d - 1) as nat);
        assert(leads(g, start, p, branch, d));
        assert forall|b: int| 0 <= b < branch implies !#[trigger] leads(g, start, p, b, d) by {
            if leads(g, start, p, b, d) {
                lemma_no_earlier_branch(w, g, start, head, p, b);
            }
        }
    }
    let last = w.len() as int;
    assert(next.branched(g, start, p, last));
    assert forall|i: int| 0 < i < next.len() implies next.branched(g, start, #[trigger] next.cells[i], i) by {
        if i < last {
            assert(w.branched(g, start, w.cells[i], i));
            assert(next.cells[i] == w.cells[i]);
            assert(next.depth[i] == w.depth[i]);
            assert(next.branch[i] == w.branch[i]);
        }
    }
    assert forall|i: int, j: int| 0 <= i < j < next.len() implies #[trigger] next.depth[i] < #[trigger] next.depth[j] || (
    next.depth[i] == next.depth[j] && next.branch[i] <= next.branch[j]) by {
        if j == last {
            assert(w.depth[i] <= d + 1);
        } else {
            assert(w.depth[i] < w.depth[j] || (w.depth[i] == w.depth[j] && w.branch[i] <= w.branch[j]));
        }
    }
    assert forall|i: int, j: int| 0 <= i < j < next.len() implies #[trigger] next.cells[i] != #[trigger] next.cells[j] by {
        if j == last {
            assert(w.cells.contains(w.cells[i]));
        } else {
            assert(w.cells[i] != w.cells[j]);
        }
    }
    assert forall|i: int| 0 <= i < next.len() implies g.holds(#[trigger] next.cells[i]) && shortest(
        g,
        start,
        next.cells[i],
        next.depth[i],
    ) by {
        if i < last {
            assert(g.holds(w.cells[i]));
        }
    }
    assert forall|i: int, q: Position|
        #![trigger next.cells[i], g.is_free(q)]
        0 <= i < head && adjacent(next.cells[i], q) && g.is_free(q) implies next.cells.contains(q) by {
        assert(next.cells[i] == w.cells[i]);
        assert(w.cells.contains(q));
        let k = choose|k: int| 0 <= k < w.len() && w.cells[k] == q;
        assert(next.cells[k] == q);
    }
    assert forall|i: int| 0 <= i < next.len() implies #[trigger] next.depth[i] <= next.depth[head] + 1 by {
        if i < last {
            assert(w.depth[i] <= w.depth[head] + 1);
        }
    }
    assert forall|i: int| 0 <= i < next.len() && #[trigger] next.depth[i] == next.depth[head] + 1 implies next.branch[i]
        <= if head == 0 {
        dir
    } else {
        next.branch[head]
    } by {
        if i < last {
            assert(w.depth[i] == w.depth[head] + 1);
        }
    }
}

/// A cell that an earlier direction leads to would have been seen already.
proof fn lemma_no_earlier_branch(w: Wave, g: Grid, start: Position, head: int, p: Position, b: int)
    requires
        g.width <= usize::MAX,
        g.height <= usize::MAX,
        w.inv(g, start, head),
        0 < head < w.len(),
        0 <= b < w.branch[head],
        leads(g, start, p, b, w.depth[head]),
    ensures
        w.cells.contains(p),
{
    let d = w.depth[head];
    assert(w.branched(g, start, w.cells[head], head));
    let n = neighbor_of(g.width as int, g.height as int, start, b)->0;
    lemma_neighbors(g.width as int, g.height as int, start, n);
    assert(adjacent(start, n));
    let before = lemma_walk_last(g, n, p, d);
    assert(walk(g, start, start, 0));
    lemma_walk_step(g, start, start, n, 0);
    lemma_walk_join(g, start, n, before, 1, (d - 1) as nat);
    lemma_level(w, g, start, head, before, d);
    let j = choose|j: int| 0 <= j < w.len() && w.cells[j] == before;
    assert(shortest(g, start, w.cells[j], w.depth[j]));
    assert(w.depth[j] <= d);
    if w.depth[j] < d {
        lemma_walk_step(g, start, before, p, w.depth[j]);
        lemma_level(w, g, start, head, p, w.depth[j] + 1);
    } else {
        assert(j > 0);
        assert(w.branched(g, start, w.cells[j], j));
        assert(leads(g, start, before, b, (d - 1) as nat));
        assert(w.branch[j] <= b);
        if head < j {
            assert(w.depth[head] < w.depth[j] || (w.depth[head] == w.depth[j] && w.branch[head] <= w.branch[j]));
        }
        assert(j < head);
        assert(g.is_free(p));
    }
}

/// Moving on to the next entry.
proof fn lemma_advance(w: Wave, g: Grid, start: Position, head: int)
    requires
        g.width <= usize::MAX,
        g.height <= usize::MAX,
        w.inv(g, start, head),
        head < w.len(),
        w.fan(head, 4),
        forall|dir: int, p: Position|
            0 <= dir < 4 && #[trigger] neighbor_of(g.width as int, g.height as int, w.cells[head], dir) == Some(p)
                && #[trigger] g.is_free(p) ==> w.cells.contains(p),
    ensures
        w.inv(g, start, head + 1),
        head + 1 < w.len() ==> w.fan(head + 1, 0),
{
    assert forall|i: int, p: Position|
        #![trigger w.cells[i], g.is_free(p)]
        0 <= i < head + 1 && adjacent(w.cells[i], p) && g.is_free(p) implies w.cells.contains(p) by {
        if i == head {
            lemma_neighbors(g.width as int, g.height as int, w.cells[head], p);
        }
    }
    if head + 1 < w.len() {
        assert(w.depth[head] < w.depth[head + 1] || (w.depth[head] == w.depth[head + 1] && w.branch[head]
            <= w.branch[head + 1]));
        assert forall|i: int| 0 <= i < w.len() implies #[trigger] w.depth[i] <= w.depth[head + 1] + 1 by {}
        assert(w.branched(g, start, w.cells[head + 1], head + 1));
        assert forall|i: int| 0 <= i < w.len() && #[trigger] w.depth[i] == w.depth[head + 1] + 1 implies w.branch[i]
            <= w.branch[head + 1] by {
            assert(w.depth[i] <= w.depth[head] + 1);
        }
    }
}

/// Finds the first step of a shortest walk from `start` to `goal` over cells
/// that are explored and hold no known obstacle.
pub fn step_toward(
    explored: &Vec<bool>,
    obstacle: &Vec<bool>,
    width: usize,
    height: usize,
    start: Position,
    goal: Position,
) -> (step: Option<Position>)
    requires
        explored@.len() == width * height,
        obstacle@.len() == width * height,
        start.x < width && start.y < height,
        goal.x < width && goal.y < height,
    ensures
        step == next_step(known_grid(width as nat, height as nat, explored@, obstacle@), start, goal),
{
    if start == goal {
        return None;
    }
    let ghost w = width as int;
    let ghost h = height as int;
    let ghost g = known_grid(width as nat, height as nat, explored@, obstacle@);
    let len = explored.len();
    let mut seen: Vec<bool> = vec![false; len];
    // The direction in which the walk to each seen cell sets out.
    let mut heading: Vec<usize> = vec![0; len];
    let mut queue: Vec<Position> = Vec::new();
    let start_idx = flat_index(width, height, start);
    proof {
        lemma_count_none(seen@);
        lemma_count_set(seen@, start_idx as int);
        lemma_flat_update(w, h, seen@, start, true);
    }
    seen[start_idx] = true;
    queue.push(start);
    let ghost mut wave = Wave { cells: queue@, depth: seq![0nat], branch: seq![0int] };
    let mut head: usize = 0;
    proof {
        assert(walk(g, start, start, 0));
        assert(shortest(g, start, start, 0));
        assert forall|p: Position| #![trigger seen@[flat(w, p)]] g.holds(p) implies seen@[flat(w, p)]
            == wave.cells.contains(p) by {
            lemma_flat(w, h, p);
            if p == start {
                assert(wave.cells[0] == p);
            }
        }
    }
    while head < queue.len() && queue[head] != goal
        invariant
            explored@.len() == width * height,
            obstacle@.len() == width * height,
            len == width * height,
            w == width,
            h == height,
            g == known_grid(width as nat, height as nat, explored@, obstacle@),
            seen@.len() == len,
            heading@.len() == len,
            wave.inv(g, start, head as int),
            wave.cells == queue@,
            head < queue@.len() ==> wave.fan(head as int, 0),
            forall|p: Position|
                #![trigger seen@[flat(w, p)]]
                g.holds(p) ==> seen@[flat(w, p)] == wave.cells.contains(p),
            forall|i: int| 0 < i < wave.len() ==> heading@[flat(w, #[trigger] wave.cells[i])] == wave.branch[i],
            count_true(seen@) == queue@.len(),
        decreases len - head,
    {
        let cur = queue[head];
        let cur_idx = flat_index(width, height, cur);
        proof {
            lemma_count_bound(seen@);
            if head > 0 {
                assert(wave.branched(g, start, wave.cells[head as int], head as int));
                assert(heading@[flat(w, wave.cells[head as int])] == wave.branch[head as int]);
            }
        }
        for dir in 0..4usize
            invariant
                explored@.len() == width * height,
                obstacle@.len() == width * height,
                len == width * height,
                w == width,
                h == height,
                g == known_grid(width as nat, height as nat, explored@, obstacle@),
                seen@.len() == len,
                heading@.len() == len,
                wave.inv(g, start, head as int),
                wave.cells == queue@,
                head < queue@.len(),
                cur == queue@[head as int],
                g.holds(cur),
                cur_idx == flat(w, cur),
                cur_idx < len,
                head > 0 ==> heading@[cur_idx as int] == wave.branch[head as int],
                wave.fan(head as int, dir as int),
                forall|p: Position|
                    #![trigger seen@[flat(w, p)]]
                    g.holds(p) ==> seen@[flat(w, p)] == wave.cells.contains(p),
                forall|i: int| 0 < i < wave.len() ==> heading@[flat(w, #[trigger] wave.cells[i])] == wave.branch[i],
                count_true(seen@) == queue@.len(),
                forall|d: int, p: Position|
                    0 <= d < dir && #[trigger] neighbor_of(w, h, cur, d) == Some(p) && #[trigger] g.is_free(p)
                        ==> wave.cells.contains(p),
        {
            if let Some(next) = neighbor(width, height, cur, dir) {
                let idx = flat_index(width, height, next);
                proof {
                    lemma_flat(w, h, next);
                    assert(seen@[flat(w, next)] == wave.cells.contains(next));
                    assert(g.free[flat(w, next)] == (explored@[idx as int] && !obstacle@[idx as int]));
                }
                if explored[idx] && !obstacle[idx] && !seen[idx] {
                    let branch = if head == 0 {
                        dir
                    } else {
                        heading[cur_idx]
                    };
                    let ghost before = wave;
                    let ghost was_seen = seen@;
                    let ghost was_heading = heading@;
                    proof {
                        lemma_push(wave, g, start, head as int, dir as int, next);
                        lemma_count_set(seen@, idx as int);
                        lemma_flat_update(w, h, seen@, next, true);
                        lemma_flat_update(w, h, heading@, next, branch);
                        wave = wave.pushed(next, wave.depth[head as int] + 1, branch as int);
                    }
                    seen[idx] = true;
                    heading[idx] = branch;
                    queue.push(next);
                    proof {
                        lemma_noted(g, before, wave, next, was_seen, was_heading, branch);
                        assert(before.cells[head as int] == cur);
                        assert(before.cells.contains(cur));
                        assert forall|d: int, p: Position|
                            0 <= d < dir + 1 && #[trigger] neighbor_of(w, h, cur, d) == Some(p) && #[trigger] g.is_free(
                                p,
                            ) implies wave.cells.contains(p) by {
                            if d < dir {
                                let k = choose|k: int| 0 <= k < before.len() && before.cells[k] == p;
                                assert(wave.cells[k] == p);
                            } else {
                                assert(wave.cells[before.len() as int] == p);
                            }
                        }
                    }
                }
            }
        }
        proof {
            lemma_advance(wave, g, start, head as int);
        }
        head += 1;
    }
    let goal_idx = flat_index(width, height, goal);
    proof {
        lemma_flat(w, h, goal);
        assert(seen@[flat(w, goal)] == wave.cells.contains(goal));
    }
    if !seen[goal_idx] {
        proof {
            if head < queue@.len() {
                assert(wave.cells.contains(queue@[head as int]));
            }
            if connected(g, start, goal) {
                let steps = choose|steps: nat| walk(g, start, goal, steps);
                lemma_level(wave, g, start, head as int, goal, steps);
            }
        }
        return None;
    }
    proof {
        let i = choose|i: int| 0 <= i < wave.len() && wave.cells[i] == goal;
        assert(i > 0);
        assert(wave.branched(g, start, wave.cells[i], i));
        assert(shortest(g, start, wave.cells[i], wave.depth[i]));
        assert(connected(g, start, goal));
        lemma_direction(g, start, goal, wave.depth[i]);
        let dir = first_direction(g, start, goal);
        if dir < wave.branch[i] {
            assert(!leads(g, start, goal, dir, (wave.depth[i] - 1) as nat));
        } else if wave.branch[i] < dir {
            assert(!leads(g, start, goal, wave.branch[i], (wave.depth[i] - 1) as nat));
        }
        assert(heading@[flat(w, wave.cells[i])] == wave.branch[i]);
    }
    neighbor(width, height, start, heading[goal_idx])
}

/// Noting a newly seen cell keeps the bitmaps in agreement with the wave.
proof fn lemma_noted(
    g: Grid,
    before: Wave,
    after: Wave,
    next: Position,
    seen: Seq<bool>,
    heading: Seq<usize>,
    branch: usize,
)
    requires
        g.wf(),
        g.holds(next),
        before.cells.len() == before.branch.len(),
        seen.len() == g.free.len(),
        heading.len() == g.free.len(),
        !before.cells.contains(next),
        after.cells == before.cells.push(next),
        after.branch == before.branch.push(branch as int),
        forall|i: int| 0 <= i < before.len() ==> g.holds(#[trigger] before.cells[i]),
        forall|p: Position|
            #![trigger seen[flat(g.width as int, p)]]
            g.holds(p) ==> seen[flat(g.width as int, p)] == before.cells.contains(p),
        forall|i: int|
            0 < i < before.len() ==> heading[flat(g.width as int, #[trigger] before.cells[i])] == before.branch[i],
    ensures
        forall|p: Position|
            #![trigger seen.update(flat(g.width as int, next), true)[flat(g.width as int, p)]]
            g.holds(p) ==> seen.update(flat(g.width as int, next), true)[flat(g.width as int, p)]
                == after.cells.contains(p),
        forall|i: int|
            0 < i < after.len() ==> heading.update(flat(g.width as int, next), branch)[flat(
                g.width as int,
                #[trigger] after.cells[i],
            )] == after.branch[i],
{
    let w = g.width as int;
    let h = g.height as int;
    lemma_flat_update(w, h, seen, next, true);
    lemma_flat_update(w, h, heading, next, branch);
    assert forall|p: Position|
        #![trigger seen.update(flat(w, next), true)[flat(w, p)]]
        g.holds(p) implies seen.update(flat(w, next), true)[flat(w, p)] == after.cells.contains(p) by {
        if p == next {
            assert(after.cells[before.len() as int] == p);
        } else {
            assert(seen[flat(w, p)] == before.cells.contains(p));
            if before.cells.contains(p) {
                let k = choose|k: int| 0 <= k < before.len() && before.cells[k] == p;
                assert(after.cells[k] == p);
            } else if after.cells.contains(p) {
                let k = choose|k: int| 0 <= k < after.len() && after.cells[k] == p;
                assert(before.cells[k] == p);
            }
        }
    }
    assert forall|i: int| 0 < i < after.len() implies heading.update(flat(w, next), branch)[flat(
        w,
        #[trigger] after.cells[i],
    )] == after.branch[i] by {
        if i < before.len() {
            assert(after.cells[i] == before.cells[i]);
            assert(before.cells.contains(before.cells[i]));
        }
    }
}

/// Of several steps that lead to a goal equally fast, the first in the order
/// north, east, south, west is taken.
pub proof fn law_first_step_goes_north_first(g: Grid, start: Position, goal: Position, steps: nat, n: Position)
    requires
        g.width <= usize::MAX,
        g.height <= usize::MAX,
        start != goal,
        shortest(g, start, goal, steps),
        adjacent(start, n),
        g.is_free(n),
        walk(g, n, goal, (steps - 1) as nat),
    ensures
        next_step(g, start, goal) matches Some(step) && {
            &&& n.y < start.y ==> step == n
            &&& n.x > start.x ==> step == n || step.y < start.y
            &&& n.y > start.y ==> step == n || step.y < start.y || step.x > start.x
        },
{
    let w = g.width as int;
    let h = g.height as int;
    lemma_direction(g, start, goal, steps);
    law_next_step_is_closer(g, start, goal, steps);
    lemma_neighbors(w, h, start, n);
    let dir = choose|dir: int| 0 <= dir < 4 && #[trigger] neighbor_of(w, h, start, dir) == Some(n);
    assert(leads(g, start, goal, dir, (steps - 1) as nat));
    assert(first_direction(g, start, goal) <= dir);
}

/// There is no step where the goal is reached, or cannot be.
pub proof fn law_no_step_without_a_way(g: Grid, start: Position, goal: Position)
    ensures
        start == goal ==> next_step(g, start, goal) is None,
        !connected(g, start, goal) ==> next_step(g, start, goal) is None,
{
}

} // verus!
