//! Geometry of a rectangular map: flat cell indices, cardinal neighbours, and
//! walks over the free cells.

use crate::world::Position;
use vstd::arithmetic::div_mod::lemma_fundamental_div_mod;
use vstd::arithmetic::div_mod::lemma_fundamental_div_mod_converse;
use vstd::prelude::*;

verus! {

/// The row-major index of `p` on a map `width` cells wide.
pub open spec fn flat(width: int, p: Position) -> int {
    p.y * width + p.x
}

/// Whether `p` lies on a `width` by `height` map.
pub open spec fn on_map(width: int, height: int, p: Position) -> bool {
    p.x < width && p.y < height
}

/// The position whose row-major index is `idx`.
pub open spec fn unflat(width: int, idx: int) -> Position {
    Position { x: (idx % width) as usize, y: (idx / width) as usize }
}

/// The distance between two coordinates.
pub open spec fn gap(a: int, b: int) -> nat {
    if a <= b {
        (b - a) as nat
    } else {
        (a - b) as nat
    }
}

/// The Manhattan distance between two positions.
pub open spec fn distance(a: Position, b: Position) -> nat {
    gap(a.x as int, b.x as int) + gap(a.y as int, b.y as int)
}

/// Whether two positions are one cardinal step apart.
pub open spec fn adjacent(a: Position, b: Position) -> bool {
    distance(a, b) == 1
}

/// Whether `p` lies within `radius` of `center`, measured in a straight line.
pub open spec fn within(center: Position, p: Position, radius: int) -> bool {
    let dx = p.x - center.x;
    let dy = p.y - center.y;
    dx * dx + dy * dy <= radius * radius
}

/// The cell one step from `p` on a `width` by `height` map: north for
/// direction `0`, then east, south and west. `None` where that leaves the map.
pub open spec fn neighbor_of(width: int, height: int, p: Position, dir: int) -> Option<Position> {
    let x = p.x + if dir == 1 { 1int } else if dir == 3 { -1int } else { 0int };
    let y = p.y + if dir == 0 { -1int } else if dir == 2 { 1int } else { 0int };
    if 0 <= x < width && 0 <= y < height {
        Some(Position { x: x as usize, y: y as usize })
    } else {
        None
    }
}

/// The entries of `s` followed by the value of `next`, if it holds one.
pub open spec fn push_some(s: Seq<Position>, next: Option<Position>) -> Seq<Position> {
    match next {
        Some(p) => s.push(p),
        None => s,
    }
}

/// The neighbours of `p` in the directions below `dirs`, in that order.
pub open spec fn neighbors_upto(width: int, height: int, p: Position, dirs: nat) -> Seq<Position>
    decreases dirs,
{
    if dirs == 0 {
        Seq::empty()
    } else {
        push_some(
            neighbors_upto(width, height, p, (dirs - 1) as nat),
            neighbor_of(width, height, p, dirs - 1),
        )
    }
}

/// The cardinal neighbours of `p` on the map: north, east, south, west.
pub open spec fn cardinal(width: int, height: int, p: Position) -> Seq<Position> {
    neighbors_upto(width, height, p, 4)
}

/// A map seen as a graph: `free[flat(p)]` says whether a robot may enter `p`.
pub struct Grid {
    pub width: nat,
    pub height: nat,
    pub free: Seq<bool>,
}

impl Grid {
    /// The bitmap covers the whole map.
    pub open spec fn wf(self) -> bool {
        self.free.len() == self.width * self.height
    }

    /// Whether `p` lies on the map.
    pub open spec fn holds(self, p: Position) -> bool {
        on_map(self.width as int, self.height as int, p)
    }

    /// Whether `p` is a cell of the map that a robot may enter.
    pub open spec fn is_free(self, p: Position) -> bool {
        self.holds(p) && self.free[flat(self.width as int, p)]
    }
}

/// Whether `steps` cardinal steps lead from `a` to `b`, each into a free cell.
pub open spec fn walk(g: Grid, a: Position, b: Position, steps: nat) -> bool
    decreases steps,
{
    if steps == 0 {
        a == b
    } else {
        g.is_free(b) && exists|p: Position|
            #[trigger] adjacent(p, b) && walk(g, a, p, (steps - 1) as nat)
    }
}

/// Whether some walk leads from `a` to `b`.
pub open spec fn connected(g: Grid, a: Position, b: Position) -> bool {
    exists|steps: nat| walk(g, a, b, steps)
}

/// The fewest steps of a walk from `a` to `b`.
pub open spec fn shortest(g: Grid, a: Position, b: Position, steps: nat) -> bool {
    walk(g, a, b, steps) && forall|fewer: nat| fewer < steps ==> !walk(g, a, b, fewer)
}

/// The flat index of a cell on the map addresses the bitmap, and determines
/// the cell.
pub proof fn lemma_flat(width: int, height: int, p: Position)
    requires
        on_map(width, height, p),
    ensures
        0 <= flat(width, p) < width * height,
        flat(width, p) % width == p.x,
        flat(width, p) / width == p.y,
        unflat(width, flat(width, p)) == p,
{
    assert(0 <= p.y * width + p.x < width * height) by (nonlinear_arith)
        requires
            0 <= p.x < width,
            0 <= p.y < height,
    ;
    lemma_fundamental_div_mod_converse(flat(width, p), width, p.y as int, p.x as int);
}

/// Two cells of the map with one flat index are one cell.
pub proof fn lemma_flat_injective(width: int, height: int, p: Position, q: Position)
    requires
        on_map(width, height, p),
        on_map(width, height, q),
        flat(width, p) == flat(width, q),
    ensures
        p == q,
{
    lemma_flat(width, height, p);
    lemma_flat(width, height, q);
}

/// Every index of the bitmap is the flat index of one cell of the map.
pub proof fn lemma_unflat(width: int, height: int, idx: int)
    requires
        0 < width <= usize::MAX,
        0 < height <= usize::MAX,
        0 <= idx < width * height,
    ensures
        on_map(width, height, unflat(width, idx)),
        flat(width, unflat(width, idx)) == idx,
        0 <= idx % width < width,
        0 <= idx / width < height,
{
    lemma_fundamental_div_mod(idx, width);
    let q = idx / width;
    let r = idx % width;
    assert(0 <= q < height) by (nonlinear_arith)
        requires
            idx == width * q + r,
            0 <= r < width,
            0 <= idx < width * height,
            width > 0,
    ;
    assert(width * q == q * width) by (nonlinear_arith);
}

/// Writing one entry of a bitmap changes what it says of one cell only.
pub proof fn lemma_flat_update<T>(width: int, height: int, s: Seq<T>, p: Position, v: T)
    requires
        on_map(width, height, p),
        s.len() >= width * height,
    ensures
        s.update(flat(width, p), v)[flat(width, p)] == v,
        forall|q: Position|
            #![trigger s.update(flat(width, p), v)[flat(width, q)]]
            on_map(width, height, q) && q != p ==> s.update(flat(width, p), v)[flat(width, q)] == s[flat(
                width,
                q,
            )],
{
    lemma_flat(width, height, p);
    assert forall|q: Position|
        #![trigger s.update(flat(width, p), v)[flat(width, q)]]
        on_map(width, height, q) && q != p implies s.update(flat(width, p), v)[flat(width, q)] == s[flat(
        width,
        q,
    )] by {
        lemma_flat(width, height, q);
    }
}

/// A neighbour in some direction is adjacent and on the map, and every
/// adjacent cell of the map is the neighbour in some direction.
pub proof fn lemma_neighbors(width: int, height: int, p: Position, q: Position)
    requires
        width <= usize::MAX,
        height <= usize::MAX,
    ensures
        (on_map(width, height, q) && adjacent(p, q)) <==> (exists|dir: int|
            0 <= dir < 4 && #[trigger] neighbor_of(width, height, p, dir) == Some(q)),
{
    if on_map(width, height, q) && adjacent(p, q) {
        let dir = if q.y < p.y {
            0int
        } else if q.x > p.x {
            1
        } else if q.y > p.y {
            2
        } else {
            3
        };
        assert(neighbor_of(width, height, p, dir) == Some(q));
    }
}

/// The last cell that a walk of at least one step comes through.
pub proof fn lemma_walk_last(g: Grid, a: Position, b: Position, steps: nat) -> (p: Position)
    requires
        walk(g, a, b, steps),
        steps > 0,
    ensures
        adjacent(p, b),
        g.is_free(b),
        walk(g, a, p, (steps - 1) as nat),
{
    choose|p: Position| #[trigger] adjacent(p, b) && walk(g, a, p, (steps - 1) as nat)
}

/// A walk of some length followed by one more step is a walk.
pub proof fn lemma_walk_step(g: Grid, a: Position, p: Position, b: Position, steps: nat)
    requires
        walk(g, a, p, steps),
        adjacent(p, b),
        g.is_free(b),
    ensures
        walk(g, a, b, steps + 1),
{
    assert(walk(g, a, p, ((steps + 1) - 1) as nat));
}

/// Two walks end to end make one walk.
pub proof fn lemma_walk_join(g: Grid, a: Position, b: Position, c: Position, m: nat, n: nat)
    requires
        walk(g, a, b, m),
        walk(g, b, c, n),
    ensures
        walk(g, a, c, m + n),
    decreases n,
{
    if n > 0 {
        let p = lemma_walk_last(g, b, c, n);
        lemma_walk_join(g, a, b, p, m, (n - 1) as nat);
        lemma_walk_step(g, a, p, c, (m + n - 1) as nat);
    }
}

/// A walk of at least one step starts with a step into a free cell.
pub proof fn lemma_walk_first(g: Grid, a: Position, b: Position, steps: nat) -> (n: Position)
    requires
        walk(g, a, b, steps),
        steps > 0,
    ensures
        adjacent(a, n),
        g.is_free(n),
        walk(g, n, b, (steps - 1) as nat),
    decreases steps,
{
    let p = lemma_walk_last(g, a, b, steps);
    if steps == 1 {
        b
    } else {
        let n = lemma_walk_first(g, a, p, (steps - 1) as nat);
        lemma_walk_step(g, n, p, b, (steps - 2) as nat);
        n
    }
}

/// A connected pair has a shortest walk.
pub proof fn lemma_shortest_exists(g: Grid, a: Position, b: Position, steps: nat) -> (least: nat)
    requires
        walk(g, a, b, steps),
    ensures
        least <= steps,
        shortest(g, a, b, least),
    decreases steps,
{
    if exists|fewer: nat| fewer < steps && walk(g, a, b, fewer) {
        let fewer = choose|fewer: nat| fewer < steps && walk(g, a, b, fewer);
        lemma_shortest_exists(g, a, b, fewer)
    } else {
        steps
    }
}

/// Connection is transitive.
pub proof fn lemma_connected_join(g: Grid, a: Position, b: Position, c: Position)
    requires
        connected(g, a, b),
        connected(g, b, c),
    ensures
        connected(g, a, c),
{
    let m = choose|m: nat| walk(g, a, b, m);
    let n = choose|n: nat| walk(g, b, c, n);
    lemma_walk_join(g, a, b, c, m, n);
}

/// A walk can be taken back, where its first cell is free too.
pub proof fn lemma_walk_back(g: Grid, a: Position, b: Position, steps: nat)
    requires
        walk(g, a, b, steps),
        g.is_free(a),
    ensures
        walk(g, b, a, steps),
    decreases steps,
{
    if steps > 0 {
        let n = lemma_walk_first(g, a, b, steps);
        lemma_walk_back(g, n, b, (steps - 1) as nat);
        lemma_walk_step(g, b, n, a, (steps - 1) as nat);
    }
}

/// Whatever set of cells holds `a` and is closed under steps into free cells
/// holds every cell that is connected to `a`.
pub proof fn lemma_closed_holds(g: Grid, a: Position, b: Position, steps: nat, held: spec_fn(Position) -> bool)
    requires
        walk(g, a, b, steps),
        held(a),
        forall|p: Position, q: Position|
            #![trigger held(p), adjacent(p, q)]
            held(p) && adjacent(p, q) && g.is_free(q) ==> held(q),
    ensures
        held(b),
    decreases steps,
{
    if steps > 0 {
        let p = lemma_walk_last(g, a, b, steps);
        lemma_closed_holds(g, a, p, (steps - 1) as nat, held);
        assert(held(p) && adjacent(p, b));
    }
}

/// The Manhattan distance never overestimates: no walk is shorter.
pub proof fn law_manhattan_is_admissible(g: Grid, a: Position, b: Position, steps: nat)
    requires
        walk(g, a, b, steps),
    ensures
        distance(a, b) <= steps,
    decreases steps,
{
    if steps > 0 {
        let p = lemma_walk_last(g, a, b, steps);
        law_manhattan_is_admissible(g, a, p, (steps - 1) as nat);
    }
}

/// The Manhattan distance counts steps on both axes: none from a cell to itself,
/// the same in both directions, and one more for every step away on either axis.
pub proof fn law_distance_counts_steps(a: Position, b: Position)
    ensures
        distance(a, b) == 0 <==> a == b,
        distance(a, b) == distance(b, a),
        a.x <= b.x < usize::MAX ==> distance(a, (Position { x: (b.x + 1) as usize, ..b })) == distance(a, b) + 1,
        0 < b.x <= a.x ==> distance(a, (Position { x: (b.x - 1) as usize, ..b })) == distance(a, b) + 1,
        a.y <= b.y < usize::MAX ==> distance(a, (Position { y: (b.y + 1) as usize, ..b })) == distance(a, b) + 1,
        0 < b.y <= a.y ==> distance(a, (Position { y: (b.y - 1) as usize, ..b })) == distance(a, b) + 1,
{
}

/// Two cells are adjacent where one coordinate agrees and the other differs by
/// one.
pub proof fn law_adjacent_cells_share_a_side(a: Position, b: Position)
    ensures
        adjacent(a, b) <==> (a.x == b.x && (a.y == b.y + 1 || b.y == a.y + 1)) || (a.y == b.y && (a.x == b.x + 1 || b.x
            == a.x + 1)),
        adjacent(a, b) == adjacent(b, a),
{
}

/// A radius is measured in a straight line: along an axis it reaches as far as
/// it says, in a right-angled triangle as far as the long side, and a radius of
/// one reaches the cell and the four next to it.
pub proof fn law_radius_is_a_circle(center: Position, p: Position, radius: int, dx: int, dy: int)
    requires
        0 <= radius,
        dx == p.x - center.x,
        dy == p.y - center.y,
    ensures
        within(center, p, radius) == within(p, center, radius),
        dy == 0 ==> (within(center, p, radius) <==> -radius <= dx <= radius),
        dx == 0 ==> (within(center, p, radius) <==> -radius <= dy <= radius),
        dx * dx + dy * dy == radius * radius ==> within(center, p, radius),
        dx * dx + dy * dy > radius * radius ==> !within(center, p, radius),
        within(center, p, radius) ==> within(center, p, radius + 1),
        within(center, p, 1) <==> p == center || adjacent(center, p),
{
    assert((-dx) * (-dx) == dx * dx && (-dy) * (-dy) == dy * dy) by (nonlinear_arith);
    assert(0 * 0 == 0int);
    assert(dx * dx <= radius * radius <==> -radius <= dx <= radius) by (nonlinear_arith)
        requires
            0 <= radius,
    ;
    assert(dy * dy <= radius * radius <==> -radius <= dy <= radius) by (nonlinear_arith)
        requires
            0 <= radius,
    ;
    assert(radius * radius <= (radius + 1) * (radius + 1)) by (nonlinear_arith)
        requires
            0 <= radius,
    ;
    assert(dx * dx + dy * dy <= 1 <==> (dx == 0 && -1 <= dy <= 1) || (dy == 0 && -1 <= dx <= 1)) by (nonlinear_arith);
}

/// The directions are north, east, south and west, one step each; none leads
/// off the map.
pub proof fn law_directions(width: int, height: int, p: Position)
    requires
        width <= usize::MAX,
        height <= usize::MAX,
        on_map(width, height, p),
    ensures
        neighbor_of(width, height, p, 0) == if p.y > 0 {
            Some(Position { x: p.x, y: (p.y - 1) as usize })
        } else {
            None
        },
        neighbor_of(width, height, p, 1) == if p.x < width - 1 {
            Some(Position { x: (p.x + 1) as usize, y: p.y })
        } else {
            None
        },
        neighbor_of(width, height, p, 2) == if p.y < height - 1 {
            Some(Position { x: p.x, y: (p.y + 1) as usize })
        } else {
            None
        },
        neighbor_of(width, height, p, 3) == if p.x > 0 {
            Some(Position { x: (p.x - 1) as usize, y: p.y })
        } else {
            None
        },
{
}

/// The cardinal neighbours of a cell away from the edge are listed in the order
/// north, east, south, west.
pub proof fn law_cardinal_order(width: int, height: int, p: Position)
    requires
        width <= usize::MAX,
        height <= usize::MAX,
        0 < p.x < width - 1,
        0 < p.y < height - 1,
    ensures
        cardinal(width, height, p) =~= seq![
            Position { x: p.x, y: (p.y - 1) as usize },
            Position { x: (p.x + 1) as usize, y: p.y },
            Position { x: p.x, y: (p.y + 1) as usize },
            Position { x: (p.x - 1) as usize, y: p.y },
        ],
{
    reveal_with_fuel(neighbors_upto, 5);
}

/// Whether `path` names the cells of a walk from `a`: each is free, and one
/// cardinal step from the one before.
pub open spec fn is_path(g: Grid, a: Position, path: Seq<Position>) -> bool {
    forall|i: int|
        0 <= i < path.len() ==> g.is_free(#[trigger] path[i]) && adjacent(
            if i == 0 {
                a
            } else {
                path[i - 1]
            },
            path[i],
        )
}

/// A walk visits one free cell a step: there is a path of that many cells that
/// ends where the walk does.
pub proof fn law_walk_has_a_path(g: Grid, a: Position, b: Position, steps: nat) -> (path: Seq<Position>)
    requires
        walk(g, a, b, steps),
    ensures
        is_path(g, a, path),
        path.len() == steps,
        steps == 0 ==> a == b,
        steps > 0 ==> path.last() == b,
    decreases steps,
{
    if steps == 0 {
        Seq::empty()
    } else {
        let p = lemma_walk_last(g, a, b, steps);
        let front = law_walk_has_a_path(g, a, p, (steps - 1) as nat);
        let path = front.push(b);
        assert forall|i: int| 0 <= i < path.len() implies g.is_free(#[trigger] path[i]) && adjacent(
            if i == 0 {
                a
            } else {
                path[i - 1]
            },
            path[i],
        ) by {
            if i < front.len() {
                assert(path[i] == front[i]);
                if i > 0 {
                    assert(path[i - 1] == front[i - 1]);
                }
            }
        }
        path
    }
}

/// Every path is a walk of as many steps as it has cells.
pub proof fn law_path_is_a_walk(g: Grid, a: Position, path: Seq<Position>)
    requires
        is_path(g, a, path),
    ensures
        path.len() == 0 ==> walk(g, a, a, 0),
        path.len() > 0 ==> walk(g, a, path.last(), path.len()),
        path.len() > 0 ==> connected(g, a, path.last()),
    decreases path.len(),
{
    if path.len() > 0 {
        let front = path.drop_last();
        assert forall|i: int| 0 <= i < front.len() implies g.is_free(#[trigger] front[i]) && adjacent(
            if i == 0 {
                a
            } else {
                front[i - 1]
            },
            front[i],
        ) by {
            assert(front[i] == path[i]);
            if i > 0 {
                assert(front[i - 1] == path[i - 1]);
            }
        }
        law_path_is_a_walk(g, a, front);
        let before = if front.len() == 0 {
            a
        } else {
            front.last()
        };
        assert(g.is_free(path[path.len() - 1]));
        lemma_walk_step(g, a, before, path.last(), front.len());
    }
}

/// The distance between two coordinates.
pub fn abs_diff(a: usize, b: usize) -> (d: usize)
    ensures
        d == gap(a as int, b as int),
{
    if a <= b {
        b - a
    } else {
        a - b
    }
}

/// The Manhattan distance between two positions.
pub fn manhattan(a: Position, b: Position) -> (d: u128)
    ensures
        d == distance(a, b),
{
    abs_diff(a.x, b.x) as u128 + abs_diff(a.y, b.y) as u128
}

/// The cell one step from `p` in direction `dir` (north, east, south, west),
/// or `None` where that leaves the map.
pub fn neighbor(width: usize, height: usize, p: Position, dir: usize) -> (q: Option<Position>)
    requires
        dir < 4,
    ensures
        q == neighbor_of(width as int, height as int, p, dir as int),
{
    let mut x: usize = p.x;
    let mut y: usize = p.y;
    if dir == 0 {
        if y == 0 {
            return None;
        }
        y -= 1;
    } else if dir == 1 {
        if x == usize::MAX {
            return None;
        }
        x += 1;
    } else if dir == 2 {
        if y == usize::MAX {
            return None;
        }
        y += 1;
    } else {
        if x == 0 {
            return None;
        }
        x -= 1;
    }
    if x < width && y < height {
        Some(Position { x, y })
    } else {
        None
    }
}

/// The cardinal neighbours of `p` on the map: north, east, south, west.
pub fn cardinal_neighbors(width: usize, height: usize, p: Position) -> (cells: Vec<Position>)
    ensures
        cells@ == cardinal(width as int, height as int, p),
{
    let mut cells: Vec<Position> = Vec::with_capacity(4);
    for dir in 0..4usize
        invariant
            cells@ == neighbors_upto(width as int, height as int, p, dir as nat),
    {
        if let Some(q) = neighbor(width, height, p, dir) {
            cells.push(q);
        }
    }
    cells
}

/// The flat index of a cell of the map.
pub fn flat_index(width: usize, height: usize, p: Position) -> (idx: usize)
    requires
        on_map(width as int, height as int, p),
        width * height <= usize::MAX,
    ensures
        idx == flat(width as int, p),
        idx < width * height,
{
    proof {
        lemma_flat(width as int, height as int, p);
        assert(0 <= p.y * width <= flat(width as int, p)) by (nonlinear_arith)
            requires
                0 <= p.x,
                0 <= p.y,
                0 <= width,
                flat(width as int, p) == p.y * width + p.x,
        ;
    }
    p.y * width + p.x
}

} // verus!
