//! Who stands where: the reservation grid and the resolution of collisions.

use crate::grid::{adjacent, distance, flat, neighbor_of, on_map};
use crate::grid::{flat_index, manhattan, neighbor};
use crate::grid::{lemma_flat, lemma_flat_update, lemma_neighbors};
use crate::tally::fill;
use crate::world::{Cell, Position, World, WorldView};
use vstd::prelude::*;

verus! {

/// Tracks which cells are currently occupied by a robot.
///
/// The base cell is always exempt: multiple robots may occupy it
/// simultaneously (it is the starting point and unloading zone).
#[derive(Debug, Clone)]
pub struct OccupancyGrid {
    occupied: Vec<bool>,
    width: usize,
    height: usize,
    base: Position,
}

/// What a reservation grid holds, as mathematics.
#[verifier::ext_equal]
pub struct OccupancyView {
    pub occupied: Seq<bool>,
    pub width: nat,
    pub height: nat,
    pub base: Position,
}

impl OccupancyView {
    /// The bitmap covers the map.
    pub open spec fn wf(self) -> bool {
        &&& self.occupied.len() == self.width * self.height
        &&& self.width <= usize::MAX
        &&& self.height <= usize::MAX
        &&& self.width * self.height <= usize::MAX
    }

    /// Whether `p` lies on the map.
    pub open spec fn holds(self, p: Position) -> bool {
        on_map(self.width as int, self.height as int, p)
    }

    /// Whether `p` cannot be reserved: reserved already, or off the map. The
    /// base never is.
    pub open spec fn taken(self, p: Position) -> bool {
        p != self.base && (self.holds(p) ==> self.occupied[flat(self.width as int, p)])
    }

    /// The grid with the entry of `p` set, where `p` has one that counts.
    pub open spec fn marked(self, p: Position, value: bool) -> OccupancyView {
        if p == self.base || !self.holds(p) {
            self
        } else {
            OccupancyView { occupied: self.occupied.update(flat(self.width as int, p), value), ..self }
        }
    }

    /// The grid with `p` reserved, where it was free.
    pub open spec fn claimed(self, p: Position) -> OccupancyView {
        if self.taken(p) {
            self
        } else {
            self.marked(p, true)
        }
    }

    /// An empty grid for `world`.
    pub open spec fn vacant(world: WorldView) -> OccupancyView {
        OccupancyView {
            occupied: Seq::new(world.cells.len(), |i: int| false),
            width: world.width,
            height: world.height,
            base: world.base,
        }
    }
}

impl View for OccupancyGrid {
    type V = OccupancyView;

    closed spec fn view(&self) -> OccupancyView {
        OccupancyView {
            occupied: self.occupied@,
            width: self.width as nat,
            height: self.height as nat,
            base: self.base,
        }
    }
}

/// The neighbour of `from` in one direction, where a robot could go: walkable
/// in `world` and not taken.
pub open spec fn vacant_neighbor(occ: OccupancyView, world: WorldView, from: Position, dir: int) -> Option<Position> {
    match neighbor_of(world.width as int, world.height as int, from, dir) {
        Some(q) => if world.cell_at(q) == Some(Cell::Walkable) && !occ.taken(q) {
            Some(q)
        } else {
            None
        },
        None => None,
    }
}

/// Among the vacant neighbours of `from` in the directions below `dirs`, the
/// first of those nearest to `desired`.
pub open spec fn best_vacant(
    occ: OccupancyView,
    world: WorldView,
    from: Position,
    desired: Position,
    dirs: nat,
) -> Option<Position>
    decreases dirs,
{
    if dirs == 0 {
        None
    } else {
        let best = best_vacant(occ, world, from, desired, (dirs - 1) as nat);
        match (vacant_neighbor(occ, world, from, dirs - 1), best) {
            (Some(q), Some(b)) => if distance(q, desired) < distance(b, desired) {
                Some(q)
            } else {
                Some(b)
            },
            (Some(q), None) => Some(q),
            (None, _) => best,
        }
    }
}

/// The sign of a number.
pub open spec fn sign(n: int) -> int {
    if n > 0 {
        1
    } else if n < 0 {
        -1
    } else {
        0
    }
}

/// One step from `from` away from `desired` on each axis where they differ;
/// `None` where they do not differ, or where no such position exists.
pub open spec fn backward(from: Position, desired: Position) -> Option<Position> {
    let x = from.x - sign(desired.x - from.x);
    let y = from.y - sign(desired.y - from.y);
    if from == desired || !(0 <= x <= usize::MAX) || !(0 <= y <= usize::MAX) {
        None
    } else {
        Some(Position { x: x as usize, y: y as usize })
    }
}

/// Where a robot ends up that came from `old` and wants `desired`.
pub open spec fn resolved(occ: OccupancyView, world: WorldView, old_pos: Position, desired: Position) -> Position {
    if !occ.taken(desired) {
        desired
    } else if world.node_at(desired) is Some {
        old_pos
    } else {
        match best_vacant(occ, world, old_pos, desired, 4) {
            Some(alt) => alt,
            None => match backward(old_pos, desired) {
                Some(back) => if world.cell_at(back) == Some(Cell::Walkable) && !occ.taken(back) {
                    back
                } else {
                    old_pos
                },
                None => old_pos,
            },
        }
    }
}

impl OccupancyGrid {
    /// A grid matching the world's dimensions, with nothing reserved.
    pub fn new(world: &World) -> (grid: Self)
        requires
            world.wf(),
        ensures
            grid@ == OccupancyView::vacant(world@),
            grid@.wf(),
    {
        let grid = OccupancyGrid {
            occupied: vec![false; world.cell_count()],
            width: world.width(),
            height: world.height(),
            base: world.base(),
        };
        assert(grid@.occupied =~= Seq::new(world@.cells.len(), |i: int| false));
        grid
    }

    /// Resets every cell to unoccupied.
    pub fn clear(&mut self)
        ensures
            final(self)@ == (OccupancyView {
                occupied: Seq::new(old(self)@.occupied.len(), |i: int| false),
                ..old(self)@
            }),
    {
        fill(&mut self.occupied, false);
    }

    /// Attempts to reserve `pos`. Returns `true` on success.
    ///
    /// The base cell always succeeds (multiple robots allowed).
    /// Out-of-bounds positions always fail.
    pub fn try_reserve(&mut self, pos: Position) -> (reserved: bool)
        requires
            old(self)@.wf(),
        ensures
            final(self)@.wf(),
            reserved == !old(self)@.taken(pos),
            final(self)@ == if reserved {
                old(self)@.marked(pos, true)
            } else {
                old(self)@
            },
            final(self)@ == old(self)@.claimed(pos),
    {
        if pos == self.base {
            return true;
        }
        match self.index(pos) {
            None => false,
            Some(idx) => {
                if self.occupied[idx] {
                    return false;
                }
                self.occupied[idx] = true;
                true
            },
        }
    }

    /// Releases a cell so another robot may occupy it.
    pub fn release(&mut self, pos: Position)
        requires
            old(self)@.wf(),
        ensures
            final(self)@.wf(),
            final(self)@ == old(self)@.marked(pos, false),
    {
        if pos == self.base {
            return ;
        }
        if let Some(idx) = self.index(pos) {
            self.occupied[idx] = false;
        }
    }

    /// Whether `pos` is currently reserved; positions off the map count as
    /// occupied, the base never does.
    pub fn is_occupied(&self, pos: Position) -> (taken: bool)
        requires
            self@.wf(),
        ensures
            taken == self@.taken(pos),
    {
        if pos == self.base {
            return false;
        }
        match self.index(pos) {
            Some(idx) => self.occupied[idx],
            None => true,
        }
    }

    /// Finds the best vacant walkable cardinal neighbor of `old_pos`,
    /// preferring the cell closest (Manhattan) to `desired`.
    ///
    /// Returns `None` if the robot is fully boxed in: it should stay put.
    pub fn find_vacant_near(&self, old_pos: Position, desired: Position, world: &World) -> (best: Option<Position>)
        requires
            self@.wf(),
            world.wf(),
        ensures
            best == best_vacant(self@, world@, old_pos, desired, 4),
    {
        let mut best: Option<Position> = None;
        for dir in 0..4usize
            invariant
                self@.wf(),
                world.wf(),
                best == best_vacant(self@, world@, old_pos, desired, dir as nat),
        {
            if let Some(target) = neighbor(world.width(), world.height(), old_pos, dir) {
                let walkable = match world.cell(target) {
                    Some(cell) => cell == Cell::Walkable,
                    None => false,
                };
                if walkable && !self.is_occupied(target) {
                    best = match best {
                        Some(b) => if manhattan(target, desired) < manhattan(b, desired) {
                            Some(target)
                        } else {
                            Some(b)
                        },
                        None => Some(target),
                    };
                }
            }
        }
        best
    }

    /// Deadlock breaker: the position one step *opposite* to the direction
    /// from `from` toward `desired`, i.e. backing up.
    ///
    /// Used when two robots meet head-on in a 1-wide corridor and no cardinal
    /// neighbor is vacant. One robot backs up, letting the other pass.
    pub fn backward_pos(from: Position, desired: Position) -> (back: Option<Position>)
        ensures
            back == backward(from, desired),
    {
        if from == desired {
            return None;
        }
        let x = match away_from(from.x, desired.x) {
            Some(x) => x,
            None => {
                return None;
            },
        };
        let y = match away_from(from.y, desired.y) {
            Some(y) => y,
            None => {
                return None;
            },
        };
        Some(Position { x, y })
    }

    fn index(&self, pos: Position) -> (idx: Option<usize>)
        requires
            self@.wf(),
        ensures
            idx is Some == self@.holds(pos),
            idx matches Some(i) ==> i == flat(self.width as int, pos) && i < self.occupied@.len(),
    {
        if pos.x >= self.width || pos.y >= self.height {
            return None;
        }
        Some(flat_index(self.width, self.height, pos))
    }
}

/// One step from `from` away from `to` on one axis.
fn away_from(from: usize, to: usize) -> (at: Option<usize>)
    ensures
        match at {
            Some(at) => at == from - sign(to - from),
            None => !(0 <= from - sign(to - from) <= usize::MAX),
        },
{
    if to > from {
        if from == 0 {
            None
        } else {
            Some(from - 1)
        }
    } else if to < from {
        if from == usize::MAX {
            None
        } else {
            Some(from + 1)
        }
    } else {
        Some(from)
    }
}

/// Resolves a collision after a robot has attempted to move to `position`.
///
/// 1. Try the desired cell.
/// 2. If it is a **resource** cell that is occupied: wait (stay put).
/// 3. Try a detour through a vacant walkable neighbour.
/// 4. Deadlock breaker: back up one step (bridge / narrow corridor).
/// 5. Stay put as a last resort.
///
/// Wherever the robot ends up, that cell is reserved if it was free.
pub fn resolve(position: &mut Position, old_pos: Position, occupancy: &mut OccupancyGrid, world: &World)
    requires
        old(occupancy)@.wf(),
        world.wf(),
    ensures
        final(occupancy)@.wf(),
        *final(position) == resolved(old(occupancy)@, world@, old_pos, *old(position)),
        final(occupancy)@ == if old(occupancy)@.taken(*final(position)) {
            old(occupancy)@
        } else {
            old(occupancy)@.marked(*final(position), true)
        },
        final(occupancy)@ == old(occupancy)@.claimed(*final(position)),
{
    let desired = *position;
    if occupancy.try_reserve(desired) {
        return ;
    }
    if world.resource_at(desired).is_some() {
        *position = old_pos;
        occupancy.try_reserve(old_pos);
        return ;
    }
    if let Some(alt) = occupancy.find_vacant_near(old_pos, desired, world) {
        *position = alt;
        occupancy.try_reserve(alt);
        return ;
    }
    if let Some(back) = OccupancyGrid::backward_pos(old_pos, desired) {
        let walkable = match world.cell(back) {
            Some(cell) => cell == Cell::Walkable,
            None => false,
        };
        if walkable && occupancy.try_reserve(back) {
            *position = back;
            return ;
        }
    }
    *position = old_pos;
    occupancy.try_reserve(old_pos);
}

/// Reserving the base or releasing it changes nothing, and it is never taken.
pub proof fn law_base_always_free(occ: OccupancyView, value: bool)
    ensures
        !occ.taken(occ.base),
        occ.marked(occ.base, value) == occ,
{
}

/// A reserved cell other than the base is taken until it is released, and
/// free again afterwards.
pub proof fn law_reserve_then_release(occ: OccupancyView, p: Position)
    requires
        occ.wf(),
        occ.holds(p),
        p != occ.base,
    ensures
        occ.marked(p, true).taken(p),
        !occ.marked(p, true).marked(p, false).taken(p),
        !occ.taken(p) ==> occ.marked(p, true).marked(p, false) == occ,
{
    lemma_flat(occ.width as int, occ.height as int, p);
    assert(!occ.taken(p) ==> occ.marked(p, true).marked(p, false) =~= occ);
}

/// Reserving or releasing one cell leaves every other as it was.
pub proof fn law_other_cells_unchanged(occ: OccupancyView, p: Position, q: Position, value: bool)
    requires
        occ.wf(),
        p != q,
    ensures
        occ.marked(p, value).taken(q) == occ.taken(q),
{
    if occ.holds(p) && occ.holds(q) {
        lemma_flat_update(occ.width as int, occ.height as int, occ.occupied, p, value);
    }
}

/// A detour goes to a vacant walkable cell one step away, no farther from the
/// desired cell than any other such cell; it is found wherever there is one.
pub proof fn law_detour_is_nearest_vacant(
    occ: OccupancyView,
    world: WorldView,
    from: Position,
    desired: Position,
    q: Position,
)
    requires
        world.wf(),
    ensures
        best_vacant(occ, world, from, desired, 4) matches Some(best) ==> {
            &&& adjacent(from, best)
            &&& world.cell_at(best) == Some(Cell::Walkable)
            &&& !occ.taken(best)
        },
        (adjacent(from, q) && world.cell_at(q) == Some(Cell::Walkable) && !occ.taken(q)) ==> {
            &&& best_vacant(occ, world, from, desired, 4) matches Some(best)
            &&& distance(best, desired) <= distance(q, desired)
        },
{
    let w = world.width as int;
    let h = world.height as int;
    lemma_best_vacant(occ, world, from, desired, 4);
    if let Some(best) = best_vacant(occ, world, from, desired, 4) {
        lemma_neighbors(w, h, from, best);
    }
    if adjacent(from, q) && world.cell_at(q) == Some(Cell::Walkable) && !occ.taken(q) {
        lemma_neighbors(w, h, from, q);
        let dir = choose|dir: int| 0 <= dir < 4 && #[trigger] neighbor_of(w, h, from, dir) == Some(q);
        assert(vacant_neighbor(occ, world, from, dir) == Some(q));
    }
}

proof fn lemma_best_vacant(occ: OccupancyView, world: WorldView, from: Position, desired: Position, dirs: nat)
    requires
        dirs <= 4,
    ensures
        best_vacant(occ, world, from, desired, dirs) matches Some(best) ==> exists|dir: int|
            0 <= dir < dirs && #[trigger] neighbor_of(world.width as int, world.height as int, from, dir) == Some(best)
                && vacant_neighbor(occ, world, from, dir) == Some(best),
        forall|dir: int|
            0 <= dir < dirs ==> (#[trigger] vacant_neighbor(occ, world, from, dir) matches Some(q) ==> {
                &&& best_vacant(occ, world, from, desired, dirs) matches Some(best)
                &&& distance(best, desired) <= distance(q, desired)
            }),
    decreases dirs,
{
    if dirs > 0 {
        lemma_best_vacant(occ, world, from, desired, (dirs - 1) as nat);
        let last = neighbor_of(world.width as int, world.height as int, from, dirs - 1);
        assert forall|dir: int| 0 <= dir < dirs implies (#[trigger] vacant_neighbor(occ, world, from, dir) matches Some(
            q,
        ) ==> {
            &&& best_vacant(occ, world, from, desired, dirs) matches Some(best)
            &&& distance(best, desired) <= distance(q, desired)
        }) by {
            if let Some(fresh) = vacant_neighbor(occ, world, from, dirs - 1) {
                assert(last == Some(fresh));
            }
        }
    }
}

/// A robot on a walkable cell that wants a walkable cell ends up on one.
pub proof fn law_resolve_stays_walkable(
    occ: OccupancyView,
    world: WorldView,
    old_pos: Position,
    desired: Position,
)
    requires
        world.wf(),
        world.cell_at(old_pos) == Some(Cell::Walkable),
        world.cell_at(desired) == Some(Cell::Walkable),
    ensures
        world.cell_at(resolved(occ, world, old_pos, desired)) == Some(Cell::Walkable),
{
    law_detour_is_nearest_vacant(occ, world, old_pos, desired, old_pos);
}

/// Where the robot's own cell was released and nobody took it, the cell it
/// ends up on was free: no two robots share a cell off the base. Afterwards
/// that cell is taken, unless it is the base.
pub proof fn law_resolve_is_exclusive(
    occ: OccupancyView,
    world: WorldView,
    old_pos: Position,
    desired: Position,
)
    requires
        occ.wf(),
        world.wf(),
        !occ.taken(old_pos),
    ensures
        !occ.taken(resolved(occ, world, old_pos, desired)),
        ({
            let end = resolved(occ, world, old_pos, desired);
            end != occ.base ==> occ.marked(end, true).taken(end)
        }),
{
    law_detour_is_nearest_vacant(occ, world, old_pos, desired, old_pos);
    let end = resolved(occ, world, old_pos, desired);
    if end != occ.base {
        law_reserve_then_release(occ, end);
    }
}

/// A robot that wants an occupied resource cell waits where it is.
pub proof fn law_waits_at_claimed_resource(
    occ: OccupancyView,
    world: WorldView,
    old_pos: Position,
    desired: Position,
)
    requires
        occ.taken(desired),
        world.node_at(desired) is Some,
    ensures
        resolved(occ, world, old_pos, desired) == old_pos,
{
}

/// Whoever claims a cell of the map other than the base has it reserved then,
/// and no other cell changes hands.
pub proof fn law_claimed_cell_is_taken(occ: OccupancyView, p: Position, q: Position)
    requires
        occ.wf(),
    ensures
        occ.holds(p) && p != occ.base ==> occ.claimed(p).taken(p),
        q != p ==> occ.claimed(p).taken(q) == occ.taken(q),
        !occ.claimed(p).taken(occ.base),
        occ.claimed(p).wf(),
{
    if occ.holds(p) {
        lemma_flat(occ.width as int, occ.height as int, p);
    }
    if q != p {
        law_other_cells_unchanged(occ, p, q, true);
    }
}

/// What counts as taken: every position but the base that is reserved in the
/// bitmap, row by row, or lies off the map.
pub proof fn law_taken_means_reserved_or_off_the_map(occ: OccupancyView, p: Position)
    ensures
        occ.taken(p) <==> p != occ.base && (p.x >= occ.width || p.y >= occ.height || occ.occupied[p.y * occ.width
            + p.x]),
{
}

/// A robot takes the cell it wants wherever that is the base, or lies on the map
/// and is not reserved.
pub proof fn law_free_cell_is_taken_as_wanted(
    occ: OccupancyView,
    world: WorldView,
    old_pos: Position,
    desired: Position,
)
    requires
        desired == occ.base || (desired.x < occ.width && desired.y < occ.height && !occ.occupied[desired.y * occ.width
            + desired.x]),
    ensures
        resolved(occ, world, old_pos, desired) == desired,
{
}

/// Whether a robot at `from` can step aside to `q`: one step away, walkable, and
/// not reserved.
pub open spec fn sidestep(occ: OccupancyView, world: WorldView, from: Position, q: Position) -> bool {
    adjacent(from, q) && world.cell_at(q) == Some(Cell::Walkable) && !occ.taken(q)
}

/// A robot that wants a taken cell without a resource steps aside wherever it
/// can: to a vacant walkable cell one step from where it was, than which no
/// other such cell is nearer to the wanted one.
pub proof fn law_steps_aside_as_near_as_possible(
    occ: OccupancyView,
    world: WorldView,
    old_pos: Position,
    desired: Position,
    q: Position,
)
    requires
        world.wf(),
        occ.taken(desired),
        forall|i: int| 0 <= i < world.resources.len() ==> (#[trigger] world.resources[i]).position != desired,
        sidestep(occ, world, old_pos, q),
    ensures
        sidestep(occ, world, old_pos, resolved(occ, world, old_pos, desired)),
        distance(resolved(occ, world, old_pos, desired), desired) <= distance(q, desired),
{
    assert forall|i: int| !world.stands_at(i, desired) by {}
    law_detour_is_nearest_vacant(occ, world, old_pos, desired, q);
}

/// Of several cells that are equally near, a robot steps aside to the first in
/// the order north, east, south, west.
pub proof fn law_steps_aside_northward_first(
    occ: OccupancyView,
    world: WorldView,
    old_pos: Position,
    desired: Position,
    q: Position,
)
    requires
        world.wf(),
        occ.taken(desired),
        forall|i: int| 0 <= i < world.resources.len() ==> (#[trigger] world.resources[i]).position != desired,
        sidestep(occ, world, old_pos, q),
        distance(resolved(occ, world, old_pos, desired), desired) == distance(q, desired),
    ensures
        ({
            let end = resolved(occ, world, old_pos, desired);
            &&& q.y < old_pos.y ==> end == q
            &&& q.x > old_pos.x ==> end == q || end.y < old_pos.y
            &&& q.y > old_pos.y ==> end == q || end.y < old_pos.y || end.x > old_pos.x
        }),
{
    let w = world.width as int;
    let h = world.height as int;
    assert forall|i: int| !world.stands_at(i, desired) by {}
    law_detour_is_nearest_vacant(occ, world, old_pos, desired, q);
    let end = resolved(occ, world, old_pos, desired);
    lemma_neighbors(w, h, old_pos, q);
    lemma_neighbors(w, h, old_pos, end);
    let d = choose|d: int| 0 <= d < 4 && #[trigger] neighbor_of(w, h, old_pos, d) == Some(q);
    let e = lemma_best_is_first(occ, world, old_pos, desired, 4);
    assert(vacant_neighbor(occ, world, old_pos, d) == Some(q));
    assert(e <= d);
}

/// The direction of the best vacant neighbour: of those equally near, the first.
proof fn lemma_best_is_first(occ: OccupancyView, world: WorldView, from: Position, desired: Position, dirs: nat) -> (e:
    int)
    requires
        dirs <= 4,
        best_vacant(occ, world, from, desired, dirs) is Some,
    ensures
        0 <= e < dirs,
        vacant_neighbor(occ, world, from, e) == best_vacant(occ, world, from, desired, dirs),
        forall|d: int|
            0 <= d < dirs && (#[trigger] vacant_neighbor(occ, world, from, d)) is Some && distance(
                vacant_neighbor(occ, world, from, d)->0,
                desired,
            ) <= distance(best_vacant(occ, world, from, desired, dirs)->0, desired) ==> e <= d,
    decreases dirs,
{
    let shorter = (dirs - 1) as nat;
    lemma_best_vacant(occ, world, from, desired, shorter);
    if best_vacant(occ, world, from, desired, shorter) is None {
        assert forall|d: int| 0 <= d < dirs - 1 implies (#[trigger] vacant_neighbor(occ, world, from, d)) is None by {}
        dirs - 1
    } else {
        let e = lemma_best_is_first(occ, world, from, desired, shorter);
        if best_vacant(occ, world, from, desired, dirs) == best_vacant(occ, world, from, desired, shorter) && (
        vacant_neighbor(occ, world, from, dirs - 1) is None || distance(
            vacant_neighbor(occ, world, from, dirs - 1)->0,
            desired,
        ) >= distance(best_vacant(occ, world, from, desired, shorter)->0, desired)) {
            e
        } else {
            dirs - 1
        }
    }
}

/// A robot that cannot step aside backs off where it can, and stays otherwise.
pub proof fn law_boxed_in_robot_backs_off_or_stays(
    occ: OccupancyView,
    world: WorldView,
    old_pos: Position,
    desired: Position,
    back: Position,
)
    requires
        world.wf(),
        occ.taken(desired),
        forall|i: int| 0 <= i < world.resources.len() ==> (#[trigger] world.resources[i]).position != desired,
        forall|q: Position| !#[trigger] sidestep(occ, world, old_pos, q),
        old_pos != desired,
        opposite(old_pos.x, desired.x, back.x as int),
        opposite(old_pos.y, desired.y, back.y as int),
    ensures
        world.cell_at(back) == Some(Cell::Walkable) && !occ.taken(back) ==> resolved(occ, world, old_pos, desired)
            == back,
        world.cell_at(back) != Some(Cell::Walkable) || occ.taken(back) ==> resolved(occ, world, old_pos, desired)
            == old_pos,
{
    assert forall|i: int| !world.stands_at(i, desired) by {}
    law_detour_is_nearest_vacant(occ, world, old_pos, desired, old_pos);
    if let Some(best) = best_vacant(occ, world, old_pos, desired, 4) {
        assert(sidestep(occ, world, old_pos, best));
    }
    law_backing_off_is_opposite(old_pos, desired);
    assert(backward(old_pos, desired) == Some(back));
}

/// Whether `at` lies one step from `from`, on the other side than `to`; at `from`
/// itself where `to` is there.
pub open spec fn opposite(from: usize, to: usize, at: int) -> bool {
    &&& to > from ==> at == from - 1
    &&& to < from ==> at == from + 1
    &&& to == from ==> at == from
}

/// Backing off leads one step to the other side on each axis. There is no such
/// position where the robot is where it wants to be, or at the edge.
pub proof fn law_backing_off_is_opposite(from: Position, desired: Position)
    ensures
        backward(from, desired) matches Some(back) ==> from != desired && opposite(from.x, desired.x, back.x as int)
            && opposite(from.y, desired.y, back.y as int),
        backward(from, desired) is None <==> {
            ||| from == desired
            ||| from.x == 0 && desired.x > 0
            ||| from.y == 0 && desired.y > 0
            ||| from.x == usize::MAX && desired.x < usize::MAX
            ||| from.y == usize::MAX && desired.y < usize::MAX
        },
{
}

/// A robot that wants a taken cell with nowhere to step aside or back off to
/// stays, and so does one that already is where it wants to be.
pub proof fn law_stays_where_nothing_else_is_left(
    occ: OccupancyView,
    world: WorldView,
    old_pos: Position,
    desired: Position,
)
    requires
        world.wf(),
        occ.taken(desired),
        forall|q: Position| !#[trigger] sidestep(occ, world, old_pos, q),
        backward(old_pos, desired) is None,
    ensures
        resolved(occ, world, old_pos, desired) == old_pos,
{
    law_detour_is_nearest_vacant(occ, world, old_pos, desired, old_pos);
    if let Some(best) = best_vacant(occ, world, old_pos, desired, 4) {
        assert(sidestep(occ, world, old_pos, best));
    }
}

/// On a fresh grid every cell of the map is free; off the map everything but the
/// base counts as taken.
pub proof fn law_fresh_grid_is_free(world: WorldView, p: Position)
    requires
        world.wf(),
    ensures
        OccupancyView::vacant(world).taken(p) <==> p != world.base && (p.x >= world.width || p.y >= world.height),
        OccupancyView::vacant(world).wf(),
{
    if world.holds(p) {
        lemma_flat(world.width as int, world.height as int, p);
    }
}

/// Whether robots at these positions keep apart: each has its cell reserved, and
/// no two share one, but for the base.
pub open spec fn apart(occ: OccupancyView, positions: Seq<Position>) -> bool {
    &&& forall|i: int|
        0 <= i < positions.len() ==> occ.holds(#[trigger] positions[i]) && (positions[i] == occ.base || occ.taken(
            positions[i],
        ))
    &&& forall|i: int, j: int|
        0 <= i < j < positions.len() && #[trigger] positions[i] == #[trigger] positions[j] ==> positions[i] == occ.base
}

/// The grid after a robot gave up its cell and moved on to `new_pos`.
pub open spec fn handed_over(occ: OccupancyView, old_pos: Position, new_pos: Position) -> OccupancyView {
    occ.marked(old_pos, false).claimed(new_pos)
}

/// Robots that keep apart still do so once one of them has released its cell and
/// resolved where to go, with nobody else moving in between.
pub proof fn law_turns_keep_robots_apart(
    occ: OccupancyView,
    world: WorldView,
    positions: Seq<Position>,
    i: int,
    desired: Position,
)
    requires
        world.wf(),
        occ.wf(),
        occ.width == world.width,
        occ.height == world.height,
        occ.base == world.base,
        apart(occ, positions),
        0 <= i < positions.len(),
        world.cell_at(positions[i]) == Some(Cell::Walkable),
        world.cell_at(desired) == Some(Cell::Walkable),
    ensures
        ({
            let new_pos = resolved(occ.marked(positions[i], false), world, positions[i], desired);
            apart(handed_over(occ, positions[i], new_pos), positions.update(i, new_pos))
        }),
{
    let old_pos = positions[i];
    let left = occ.marked(old_pos, false);
    let new_pos = resolved(left, world, old_pos, desired);
    let after = handed_over(occ, old_pos, new_pos);
    let moved = positions.update(i, new_pos);
    lemma_flat(occ.width as int, occ.height as int, old_pos);
    assert(!left.taken(old_pos));
    law_resolve_is_exclusive(left, world, old_pos, desired);
    law_resolve_stays_walkable(left, world, old_pos, desired);
    lemma_flat(occ.width as int, occ.height as int, new_pos);
    assert forall|j: int| 0 <= j < moved.len() implies after.holds(#[trigger] moved[j]) && (moved[j] == after.base
        || after.taken(moved[j])) by {
        if j != i {
            let p = positions[j];
            assert(occ.holds(p));
            if p != occ.base {
                assert(p != old_pos) by {
                    if j < i {
                        assert(positions[j] == p && positions[i] == old_pos);
                    } else {
                        assert(positions[i] == old_pos && positions[j] == p);
                    }
                }
                law_other_cells_unchanged(occ, old_pos, p, false);
                if p != new_pos {
                    law_other_cells_unchanged(left, new_pos, p, true);
                }
            }
        }
    }
    assert forall|j: int, k: int| 0 <= j < k < moved.len() && #[trigger] moved[j] == #[trigger] moved[k] implies moved[j]
        == after.base by {
        let other = if j == i {
            k
        } else {
            j
        };
        if j == i || k == i {
            let p = positions[other];
            assert(occ.holds(p));
            if p == new_pos && p != occ.base {
                assert(occ.taken(p));
                if p != old_pos {
                    law_other_cells_unchanged(occ, old_pos, p, false);
                } else if other < i {
                    assert(positions[other] == positions[i]);
                } else {
                    assert(positions[i] == positions[other]);
                }
            }
        } else {
            assert(positions[j] == positions[k]);
        }
    }
}

} // verus!
