//! Scouts: robots that explore the map and report what they find.

use crate::channel::{Outbox, SendOutcome};
use crate::grid::{adjacent, cardinal, connected, distance, flat, neighbor_of, neighbors_upto, on_map, unflat, walk, Grid};
use crate::grid::{cardinal_neighbors, flat_index, manhattan, neighbor};
use crate::grid::{lemma_closed_holds, lemma_flat, lemma_flat_injective, lemma_neighbors, lemma_shortest_exists};
use crate::grid::{lemma_unflat, shortest};
use crate::nearest::lemma_filter_push;
use crate::rng::{drawn_below, drawn_chance, pointed, random_below, random_chance, rng_state, seed_rng, seeded_state};
use crate::tally::{count_true, lemma_count_bound, lemma_count_none, lemma_count_set};
use crate::wave::{known_grid, law_next_step_is_closer, next_step, step_toward};
use crate::world::{index_to_position, lemma_node_at, Cell, Position, ResourceKind, World, WorldView};
use rand::rngs::StdRng;
use tokio::sync::mpsc::Sender;
use vstd::prelude::*;

verus! {

/// A single discovery made by a scout.
#[derive(Debug, Clone, Copy, PartialEq, Eq, Structural)]
pub enum Discovery {
    Resource { position: Position, kind: ResourceKind },
    Obstacle { position: Position },
}

/// A batched message sent by a scout to the base.
#[derive(Debug, Clone)]
pub struct ScoutMessage {
    pub scout_id: u16,
    pub discoveries: Vec<Discovery>,
}

/// What a message reports.
#[verifier::ext_equal]
pub struct Report {
    pub scout_id: u16,
    pub discoveries: Seq<Discovery>,
}

/// Configuration knobs for scout behavior.
#[derive(Debug, Clone, Copy, PartialEq, Eq, Structural)]
pub struct ScoutConfig {
    /// Maximum discoveries to buffer before forcing a flush.
    pub batch_capacity: usize,
    /// Flush the batch every N ticks even if not full.
    pub flush_interval: u32,
    /// Probability, in millionths, of picking a random walkable neighbor
    /// instead of the frontier-biased best candidate. Prevents clustering.
    pub random_move_probability: u32,
}

/// Certainty, in the unit of [`ScoutConfig::random_move_probability`].
pub const CERTAIN: u32 = 1_000_000;

impl Default for ScoutConfig {
    fn default() -> (config: Self)
        ensures
            config.batch_capacity == 8,
            config.flush_interval == 5,
            config.random_move_probability == 150_000,
    {
        ScoutConfig { batch_capacity: 8, flush_interval: 5, random_move_probability: 150_000 }
    }
}

/// Backpressure and runtime stats for a single scout.
#[derive(Debug, Clone, Copy, PartialEq, Eq, Structural)]
pub struct ScoutStats {
    pub ticks: u64,
    pub cells_explored: u64,
    pub messages_sent: u64,
    pub messages_dropped: u64,
    pub discoveries_total: u64,
}

impl ScoutStats {
    /// Nothing counted yet.
    pub open spec fn zero() -> ScoutStats {
        ScoutStats { ticks: 0, cells_explored: 0, messages_sent: 0, messages_dropped: 0, discoveries_total: 0 }
    }
}

impl Default for ScoutStats {
    fn default() -> (stats: Self)
        ensures
            stats == ScoutStats::zero(),
    {
        ScoutStats { ticks: 0, cells_explored: 0, messages_sent: 0, messages_dropped: 0, discoveries_total: 0 }
    }
}

/// If a scout finds no frontier in its sector for this many ticks, it turns to
/// the most promising frontier on its local map.
pub const SECTOR_TIMEOUT: u32 = 200;

/// How the cells of a map lie as seen from a scout's home, relative to the
/// direction that the scout prefers.
#[derive(Debug, Clone)]
pub struct Bearings {
    /// Of each cell, in row-major order, how far off the preferred direction it
    /// lies, from 0 (straight ahead) to 10 (behind).
    pub penalty: Vec<u8>,
    /// Of each cell, whether it lies in the preferred sector.
    pub inside: Vec<bool>,
}

impl Bearings {
    /// Whether the bearings cover a map of `len` cells.
    pub open spec fn cover(&self, len: nat) -> bool {
        self.penalty@.len() == len && self.inside@.len() == len
    }
}

/// A robot that explores the map, preferring far frontiers in its sector, and
/// sends what it discovers to the base in batches.
pub struct Scout {
    pub id: u16,
    pub position: Position,
    home: Position,
    exploration_goal: Option<Position>,
    bearings: Bearings,
    /// Number of consecutive searches with no frontier in the sector.
    ticks_without_sector_frontier: u32,
    /// Where the scout waits to be turned to.
    turning: Option<Position>,
    config: ScoutConfig,
    rng: StdRng,
    explored: Vec<bool>,
    known_obstacle: Vec<bool>,
    batch: Vec<Discovery>,
    ticks_since_flush: u32,
    outbox: Outbox<ScoutMessage>,
    pub stats: ScoutStats,
    world_width: usize,
    world_height: usize,
}

/// What a scout holds, as mathematics.
#[verifier::ext_equal]
pub struct ScoutView {
    pub id: u16,
    pub position: Position,
    pub home: Position,
    pub goal: Option<Position>,
    pub penalty: Seq<u8>,
    pub inside: Seq<bool>,
    pub misses: u32,
    pub turning: Option<Position>,
    pub config: ScoutConfig,
    pub rng: Seq<u8>,
    pub explored: Seq<bool>,
    pub obstacle: Seq<bool>,
    pub batch: Seq<Discovery>,
    pub since_flush: u32,
    /// The reports offered to the base, and those that its channel took.
    pub offered: Seq<Report>,
    pub taken: Seq<Report>,
    pub stats: ScoutStats,
    pub width: nat,
    pub height: nat,
}

/// What messages report, in order.
pub open spec fn reports(messages: Seq<ScoutMessage>) -> Seq<Report> {
    messages.map_values(|m: ScoutMessage| Report { scout_id: m.scout_id, discoveries: m.discoveries@ })
}

/// The discoveries of several reports, one after the other.
pub open spec fn contents(reports: Seq<Report>) -> Seq<Discovery>
    decreases reports.len(),
{
    if reports.len() == 0 {
        Seq::empty()
    } else {
        contents(reports.drop_last()) + reports.last().discoveries
    }
}

/// What there is to report of a cell.
pub open spec fn finding(world: WorldView, p: Position) -> Option<Discovery> {
    match world.cell_at(p) {
        Some(Cell::Obstacle) => Some(Discovery::Obstacle { position: p }),
        Some(Cell::Walkable) => match world.node_at(p) {
            Some(node) => Some(Discovery::Resource { position: p, kind: node.kind }),
            None => None,
        },
        None => None,
    }
}

/// Whether a discovery is true of a world.
pub open spec fn truthful(world: WorldView, d: Discovery) -> bool {
    match d {
        Discovery::Resource { position, .. } | Discovery::Obstacle { position } => finding(world, position) == Some(d),
    }
}

/// Whether some neighbour of `p` is unexplored.
pub open spec fn borders_unknown(width: int, height: int, explored: Seq<bool>, p: Position) -> bool {
    exists|dir: int|
        0 <= dir < 4 && match #[trigger] neighbor_of(width, height, p, dir) {
            Some(q) => !explored[flat(width, q)],
            None => false,
        }
}

/// Whether cell `idx` is known to be walkable and borders the unknown.
pub open spec fn is_frontier(width: int, height: int, explored: Seq<bool>, obstacle: Seq<bool>, idx: int) -> bool {
    explored[idx] && !obstacle[idx] && borders_unknown(width, height, explored, unflat(width, idx))
}

/// The frontier among the first `upto` cells, in row-major order.
pub open spec fn frontier_upto(
    width: int,
    height: int,
    explored: Seq<bool>,
    obstacle: Seq<bool>,
    upto: nat,
) -> Seq<Position>
    decreases upto,
{
    if upto == 0 {
        Seq::empty()
    } else {
        let before = frontier_upto(width, height, explored, obstacle, (upto - 1) as nat);
        if is_frontier(width, height, explored, obstacle, upto - 1) {
            before.push(unflat(width, upto - 1))
        } else {
            before
        }
    }
}

impl ScoutView {
    /// What is true of every scout.
    pub open spec fn wf(self) -> bool {
        let len = self.width * self.height;
        &&& 0 < self.width <= usize::MAX
        &&& 0 < self.height <= usize::MAX
        &&& len <= usize::MAX
        &&& self.explored.len() == len
        &&& self.obstacle.len() == len
        &&& self.penalty.len() == len
        &&& self.inside.len() == len
        &&& forall|i: int| 0 <= i < len && #[trigger] self.obstacle[i] ==> self.explored[i]
        &&& self.holds(self.position)
        &&& self.goal matches Some(g) ==> self.holds(g)
        &&& self.misses <= SECTOR_TIMEOUT
        &&& self.config.random_move_probability <= CERTAIN
        &&& self.since_flush == 0 || self.since_flush < self.config.flush_interval
        &&& self.stats.cells_explored == count_true(self.explored)
        &&& self.stats.discoveries_total <= self.stats.cells_explored
        &&& self.stats.messages_sent + self.stats.messages_dropped <= self.stats.ticks
        &&& self.turning is Some ==> self.mid_tick()
    }

    /// What is true of a scout in the middle of a tick: it has looked at its
    /// neighbourhood, and has not flushed yet.
    pub open spec fn mid_tick(self) -> bool {
        &&& self.stats.messages_sent + self.stats.messages_dropped < self.stats.ticks
        &&& forall|q: Position|
            #![trigger self.explored[flat(self.width as int, q)]]
            self.holds(q) && adjacent(self.position, q) ==> self.explored[flat(self.width as int, q)]
    }

    /// Whether `p` lies on the map.
    pub open spec fn holds(self, p: Position) -> bool {
        on_map(self.width as int, self.height as int, p)
    }

    /// Whether the map is the map of `world`, and all that the scout believes
    /// and has to report is true of it.
    pub open spec fn knows(self, world: WorldView) -> bool {
        &&& self.width == world.width
        &&& self.height == world.height
        &&& forall|i: int|
            0 <= i < self.explored.len() && #[trigger] self.explored[i] ==> self.obstacle[i] == (world.cells[i]
                == Cell::Obstacle)
        &&& forall|i: int| 0 <= i < self.batch.len() ==> truthful(world, #[trigger] self.batch[i])
    }

    /// The cells known to be walkable.
    pub open spec fn known(self) -> Grid {
        known_grid(self.width, self.height, self.explored, self.obstacle)
    }

    /// The neighbours of the scout that hold no known obstacle.
    pub open spec fn exits(self) -> Seq<Position> {
        cardinal(self.width as int, self.height as int, self.position).filter(
            |p: Position| !self.obstacle[flat(self.width as int, p)],
        )
    }

    /// Whether a step leads from where the scout stands to a walkable cell.
    pub open spec fn has_exit(self, world: WorldView) -> bool {
        exists|q: Position| #[trigger] adjacent(self.position, q) && world.grid().is_free(q)
    }

    /// All cells known to be walkable that border the unknown.
    pub open spec fn frontier(self) -> Seq<Position> {
        frontier_upto(
            self.width as int,
            self.height as int,
            self.explored,
            self.obstacle,
            (self.width * self.height) as nat,
        )
    }

    /// The frontier in the preferred sector.
    pub open spec fn sector(self) -> Seq<Position> {
        self.frontier().filter(|p: Position| self.inside[flat(self.width as int, p)])
    }

    /// How promising a cell is: far from the scout, far from home, and in the
    /// preferred direction.
    pub open spec fn score(self, p: Position) -> int {
        distance(self.position, p) + 2 * distance(self.home, p) - self.penalty[flat(self.width as int, p)]
    }

    /// The first of the most promising cells.
    pub open spec fn best(self, cells: Seq<Position>) -> Option<Position>
        decreases cells.len(),
    {
        if cells.len() == 0 {
            None
        } else {
            match self.best(cells.drop_last()) {
                Some(p) => if self.score(cells.last()) > self.score(p) {
                    Some(cells.last())
                } else {
                    Some(p)
                },
                None => Some(cells.last()),
            }
        }
    }

    /// The scout after a look at one cell.
    pub open spec fn observed(self, world: WorldView, p: Position) -> ScoutView {
        let i = flat(self.width as int, p);
        if self.explored[i] {
            self
        } else {
            let found = finding(world, p);
            ScoutView {
                explored: self.explored.update(i, true),
                obstacle: if world.cell_at(p) == Some(Cell::Obstacle) {
                    self.obstacle.update(i, true)
                } else {
                    self.obstacle
                },
                batch: match found {
                    Some(d) => self.batch.push(d),
                    None => self.batch,
                },
                stats: ScoutStats {
                    cells_explored: (self.stats.cells_explored + 1) as u64,
                    discoveries_total: if found is Some {
                        (self.stats.discoveries_total + 1) as u64
                    } else {
                        self.stats.discoveries_total
                    },
                    ..self.stats
                },
                ..self
            }
        }
    }

    /// The scout after a look at several cells.
    pub open spec fn observed_all(self, world: WorldView, cells: Seq<Position>) -> ScoutView
        decreases cells.len(),
    {
        if cells.len() == 0 {
            self
        } else {
            self.observed_all(world, cells.drop_last()).observed(world, cells.last())
        }
    }

    /// A random step among the exits, and the scout after drawing it.
    pub open spec fn strayed(self) -> (Option<Position>, ScoutView) {
        if self.exits().len() == 0 {
            (None, self)
        } else {
            let (draw, rng) = drawn_below(self.rng, self.exits().len());
            (pointed(self.exits(), draw), ScoutView { rng, ..self })
        }
    }

    /// A step toward the most promising of `cells`, or a random one where there
    /// is no way there, and the scout with the goal that it set itself.
    pub open spec fn pursued(self, cells: Seq<Position>) -> (Option<Position>, ScoutView) {
        match self.best(cells) {
            Some(goal) => match next_step(self.known(), self.position, goal) {
                Some(step) => (Some(step), ScoutView { goal: Some(goal), ..self }),
                None => ScoutView { goal: None, ..self }.strayed(),
            },
            None => ScoutView { goal: None, ..self }.strayed(),
        }
    }

    /// The scout on the way to its goal: the next step, where it has a goal that
    /// it has not reached and can reach.
    pub open spec fn on_the_way(self) -> Option<Position> {
        match self.goal {
            Some(goal) => next_step(self.known(), self.position, goal),
            None => None,
        }
    }

    /// The step that the scout takes next, and the scout after deciding on it:
    /// a random step where it strays, else a step on the way to its goal, else
    /// one toward the most promising frontier. Where the scout has had no
    /// frontier in its sector for too long, it does not decide but waits to be
    /// turned.
    pub open spec fn decided_on(self, stray: bool) -> (Option<Position>, ScoutView) {
        if stray {
            self.strayed()
        } else if self.frontier().len() == 0 {
            ScoutView { goal: None, ..self }.strayed()
        } else if self.on_the_way() is Some {
            (self.on_the_way(), self)
        } else if self.sector().len() > 0 {
            ScoutView { misses: 0, ..self }.pursued(self.sector())
        } else if self.misses < SECTOR_TIMEOUT {
            ScoutView { misses: (self.misses + 1) as u32, ..self }.pursued(self.frontier())
        } else {
            let best = self.best(self.frontier());
            (None, ScoutView { misses: 0, goal: best, turning: best, ..self })
        }
    }

    /// The scout after stepping into a cell, or staying where it is.
    pub open spec fn moved(self, world: WorldView, step: Option<Position>) -> ScoutView {
        match step {
            Some(p) => ScoutView { position: p, ..self }.observed(world, p),
            None => self,
        }
    }

    /// The scout after it has heard what became of an offered message.
    pub open spec fn settled_by(self, outcome: SendOutcome<ScoutMessage>) -> ScoutView {
        let sent = ScoutStats { messages_sent: (self.stats.messages_sent + 1) as u64, ..self.stats };
        let dropped = ScoutStats { messages_dropped: (self.stats.messages_dropped + 1) as u64, ..self.stats };
        match outcome {
            SendOutcome::Sent => ScoutView { stats: sent, ..self },
            SendOutcome::Full(message) => ScoutView { batch: message.discoveries@, stats: dropped, ..self },
            SendOutcome::Closed(_) => ScoutView { stats: dropped, ..self },
        }
    }

    /// Whether `next` is the scout after offering its batch to the base. The
    /// channel takes the batch; or it is full, and the scout keeps the batch to
    /// try again; or it is closed, and the batch is gone.
    pub open spec fn flushed(self, next: ScoutView) -> bool {
        let c = ScoutView { since_flush: 0, ..self };
        if self.batch.len() == 0 {
            next == c
        } else {
            let report = Report { scout_id: self.id, discoveries: self.batch };
            let offered = self.offered.push(report);
            let sent = ScoutStats { messages_sent: (self.stats.messages_sent + 1) as u64, ..self.stats };
            let dropped = ScoutStats { messages_dropped: (self.stats.messages_dropped + 1) as u64, ..self.stats };
            ||| next == (ScoutView { batch: Seq::empty(), stats: sent, offered, taken: self.taken.push(report), ..c })
            ||| next == (ScoutView { stats: dropped, offered, ..c })
            ||| next == (ScoutView { batch: Seq::empty(), stats: dropped, offered, ..c })
        }
    }

    /// Whether `next` is the scout after the rest of a tick in which it decided
    /// on `step`.
    pub open spec fn finished(self, world: WorldView, step: Option<Position>, next: ScoutView) -> bool {
        let m = self.moved(world, step);
        let c = ScoutView { since_flush: (m.since_flush + 1) as u32, ..m };
        if c.since_flush >= c.config.flush_interval || c.batch.len() >= c.config.batch_capacity {
            c.flushed(next)
        } else {
            next == c
        }
    }

    /// One more tick counted, and the neighbourhood looked at.
    pub open spec fn alert(self, world: WorldView) -> ScoutView {
        ScoutView { stats: ScoutStats { ticks: (self.stats.ticks + 1) as u64, ..self.stats }, ..self }.observed_all(
            world,
            cardinal(self.width as int, self.height as int, self.position),
        )
    }

    /// Whether `next` is the scout after a tick, or after as much of it as can
    /// be done before the scout is turned, where it is known whether it strays.
    pub open spec fn ticked_on(self, world: WorldView, stray: bool, next: ScoutView) -> bool {
        let (step, c) = self.alert(world).decided_on(stray);
        if c.turning is Some {
            next == c
        } else {
            c.finished(world, step, next)
        }
    }

    /// Whether `next` is the scout after a tick, or after as much of it as can
    /// be done before the scout is turned. Whether it strays is drawn.
    pub open spec fn ticked(self, world: WorldView, next: ScoutView) -> bool {
        let (stray, rng) = drawn_chance(self.rng, self.config.random_move_probability, CERTAIN);
        ScoutView { rng, ..self }.ticked_on(world, stray, next)
    }

    /// Whether `next` is the scout after it has been turned and has finished the
    /// tick: it looks for a goal anywhere on its frontier, in the new direction.
    pub open spec fn turned(self, world: WorldView, penalty: Seq<u8>, inside: Seq<bool>, next: ScoutView) -> bool {
        let (step, c) = ScoutView { penalty, inside, turning: None, ..self }.pursued(self.frontier());
        c.finished(world, step, next)
    }

    /// A scout that has seen nothing yet.
    pub open spec fn blank(
        id: u16,
        start: Position,
        world: WorldView,
        config: ScoutConfig,
        seed: u64,
        penalty: Seq<u8>,
        inside: Seq<bool>,
    ) -> ScoutView {
        let len = world.width * world.height;
        ScoutView {
            id,
            position: start,
            home: start,
            goal: None,
            penalty,
            inside,
            misses: 0,
            turning: None,
            config,
            rng: seeded_state(seed),
            explored: Seq::new(len, |i: int| false),
            obstacle: Seq::new(len, |i: int| false),
            batch: Seq::empty(),
            since_flush: 0,
            offered: Seq::empty(),
            taken: Seq::empty(),
            stats: ScoutStats::zero(),
            width: world.width,
            height: world.height,
        }
    }
}

impl View for Scout {
    type V = ScoutView;

    closed spec fn view(&self) -> ScoutView {
        ScoutView {
            id: self.id,
            position: self.position,
            home: self.home,
            goal: self.exploration_goal,
            penalty: self.bearings.penalty@,
            inside: self.bearings.inside@,
            misses: self.ticks_without_sector_frontier,
            turning: self.turning,
            config: self.config,
            rng: rng_state(self.rng),
            explored: self.explored@,
            obstacle: self.known_obstacle@,
            batch: self.batch@,
            since_flush: self.ticks_since_flush,
            offered: reports(self.outbox.offered()),
            taken: reports(self.outbox.taken()),
            stats: self.stats,
            width: self.world_width as nat,
            height: self.world_height as nat,
        }
    }
}

impl ScoutView {
    /// Whether stepping into `p` is one step onto a cell that is not known to
    /// hold an obstacle, and has been seen or lies next to the scout.
    spec fn allows(self, p: Position) -> bool {
        &&& self.holds(p)
        &&& adjacent(self.position, p)
        &&& !self.obstacle[flat(self.width as int, p)]
    }
}

proof fn lemma_observed(c: ScoutView, world: WorldView, p: Position)
    requires
        world.wf(),
        c.wf(),
        c.knows(world),
        c.holds(p),
    ensures
        c.observed(world, p).wf(),
        c.observed(world, p).knows(world),
        c.observed(world, p).explored[flat(c.width as int, p)],
        forall|i: int|
            0 <= i < c.explored.len() && #[trigger] c.explored[i] ==> c.observed(world, p).explored[i],
        c.observed(world, p) == (ScoutView {
            explored: c.observed(world, p).explored,
            obstacle: c.observed(world, p).obstacle,
            batch: c.observed(world, p).batch,
            stats: c.observed(world, p).stats,
            ..c
        }),
        c.observed(world, p).stats.ticks == c.stats.ticks,
        c.observed(world, p).stats.messages_sent == c.stats.messages_sent,
        c.observed(world, p).stats.messages_dropped == c.stats.messages_dropped,
        !c.explored[flat(c.width as int, p)] ==> c.stats.cells_explored < usize::MAX,
{
    let next = c.observed(world, p);
    let i = flat(c.width as int, p);
    lemma_flat(c.width as int, c.height as int, p);
    if !c.explored[i] {
        lemma_count_set(c.explored, i);
        lemma_count_bound(next.explored);
        assert forall|j: int| 0 <= j < next.explored.len() && #[trigger] next.explored[j] implies next.obstacle[j] == (
        world.cells[j] == Cell::Obstacle) by {
            if j != i {
                assert(c.explored[j]);
            }
        }
        assert forall|q: Position|
            #![trigger next.explored[flat(next.width as int, q)]]
            c.mid_tick() && next.holds(q) && adjacent(next.position, q) implies next.explored[flat(
            next.width as int,
            q,
        )] by {
            lemma_flat(c.width as int, c.height as int, q);
            assert(c.explored[flat(c.width as int, q)]);
        }
        assert forall|k: int| 0 <= k < next.batch.len() implies truthful(world, #[trigger] next.batch[k]) by {
            if k < c.batch.len() {
                assert(truthful(world, c.batch[k]));
            }
        }
    }
}

/// What a scout knows is what its bitmaps and its batch hold.
proof fn lemma_knows_same(a: ScoutView, b: ScoutView, world: WorldView)
    requires
        a.knows(world),
        a.explored == b.explored,
        a.obstacle == b.obstacle,
        a.batch == b.batch || b.batch.len() == 0,
        a.width == b.width,
        a.height == b.height,
    ensures
        b.knows(world),
{
    assert forall|i: int| 0 <= i < b.explored.len() && #[trigger] b.explored[i] implies b.obstacle[i] == (world.cells[i]
        == Cell::Obstacle) by {
        assert(a.explored[i]);
    }
    assert forall|i: int| 0 <= i < b.batch.len() implies truthful(world, #[trigger] b.batch[i]) by {
        assert(truthful(world, a.batch[i]));
    }
}

/// The most promising cell is one of the cells, and none is more promising.
pub proof fn law_best_is_most_promising(c: ScoutView, cells: Seq<Position>)
    ensures
        match c.best(cells) {
            Some(p) => cells.contains(p) && forall|q: Position| #[trigger] cells.contains(q) ==> c.score(q) <= c.score(p),
            None => cells.len() == 0,
        },
    decreases cells.len(),
{
    if cells.len() > 0 {
        let front = cells.drop_last();
        law_best_is_most_promising(c, front);
        let p = c.best(cells)->0;
        assert(cells[cells.len() - 1] == cells.last());
        if p != cells.last() {
            let k = choose|k: int| 0 <= k < front.len() && front[k] == p;
            assert(cells[k] == p);
        }
        assert forall|q: Position| #[trigger] cells.contains(q) implies c.score(q) <= c.score(p) by {
            let k = choose|k: int| 0 <= k < cells.len() && cells[k] == q;
            if k < front.len() {
                assert(front[k] == q);
                assert(front.contains(q));
            }
        }
    }
}

/// Every frontier cell lies on the map.
proof fn lemma_frontier_on_map(width: int, height: int, explored: Seq<bool>, obstacle: Seq<bool>, upto: nat)
    requires
        0 < width <= usize::MAX,
        0 < height <= usize::MAX,
        upto <= width * height,
    ensures
        forall|p: Position|
            #[trigger] frontier_upto(width, height, explored, obstacle, upto).contains(p) ==> on_map(width, height, p),
    decreases upto,
{
    if upto > 0 {
        lemma_frontier_on_map(width, height, explored, obstacle, (upto - 1) as nat);
        lemma_unflat(width, height, upto - 1);
        let before = frontier_upto(width, height, explored, obstacle, (upto - 1) as nat);
        let all = frontier_upto(width, height, explored, obstacle, upto);
        assert forall|p: Position| #[trigger] all.contains(p) implies on_map(width, height, p) by {
            let k = choose|k: int| 0 <= k < all.len() && all[k] == p;
            if k < before.len() {
                assert(before[k] == p);
                assert(before.contains(p));
            }
        }
    }
}

/// What a filter leaves was there before, and passes.
proof fn lemma_filtered(s: Seq<Position>, keep: spec_fn(Position) -> bool, p: Position)
    requires
        s.filter(keep).contains(p),
    ensures
        s.contains(p),
        keep(p),
    decreases s.len(),
{
    reveal(Seq::filter);
    if s.len() > 0 {
        let front = s.drop_last();
        let k = choose|k: int| 0 <= k < s.filter(keep).len() && s.filter(keep)[k] == p;
        if k < front.filter(keep).len() {
            assert(front.filter(keep)[k] == p);
            assert(front.filter(keep).contains(p));
            lemma_filtered(front, keep, p);
            let j = choose|j: int| 0 <= j < front.len() && front[j] == p;
            assert(s[j] == p);
        } else {
            assert(s[s.len() - 1] == p);
        }
    }
}

/// The cardinal neighbours are the adjacent cells of the map.
proof fn lemma_cardinal(width: int, height: int, p: Position, q: Position)
    requires
        width <= usize::MAX,
        height <= usize::MAX,
    ensures
        cardinal(width, height, p).contains(q) <==> on_map(width, height, q) && adjacent(p, q),
{
    lemma_neighbors(width, height, p, q);
    lemma_neighbors_upto(width, height, p, q, 4);
}

proof fn lemma_neighbors_upto(width: int, height: int, p: Position, q: Position, dirs: nat)
    ensures
        neighbors_upto(width, height, p, dirs).contains(q) <==> exists|dir: int|
            0 <= dir < dirs && #[trigger] neighbor_of(width, height, p, dir) == Some(q),
    decreases dirs,
{
    if dirs > 0 {
        lemma_neighbors_upto(width, height, p, q, (dirs - 1) as nat);
        let before = neighbors_upto(width, height, p, (dirs - 1) as nat);
        let all = neighbors_upto(width, height, p, dirs);
        if all.contains(q) {
            let k = choose|k: int| 0 <= k < all.len() && all[k] == q;
            if k < before.len() {
                assert(before[k] == q);
                assert(before.contains(q));
            } else {
                assert(neighbor_of(width, height, p, dirs - 1) == Some(q));
            }
        }
        if exists|dir: int| 0 <= dir < dirs && #[trigger] neighbor_of(width, height, p, dir) == Some(q) {
            let dir = choose|dir: int| 0 <= dir < dirs && #[trigger] neighbor_of(width, height, p, dir) == Some(q);
            if dir == dirs - 1 {
                assert(all[all.len() - 1] == q);
            } else {
                assert(before.contains(q));
                let k = choose|k: int| 0 <= k < before.len() && before[k] == q;
                assert(all[k] == q);
            }
        }
    }
}

impl Scout {
    /// What is true of every scout.
    pub open spec fn wf(&self) -> bool {
        self@.wf()
    }

    /// Creates a scout at `start` (normally the base position), which prefers
    /// the direction that `bearings` describe.
    pub fn new(
        id: u16,
        start: Position,
        world: &World,
        config: ScoutConfig,
        seed: u64,
        bearings: Bearings,
        tx: Sender<ScoutMessage>,
    ) -> (scout: Self)
        requires
            world.wf(),
            world@.holds(start),
            config.random_move_probability <= CERTAIN,
            bearings.cover(world@.cells.len()),
        ensures
            scout.wf(),
            scout@.knows(world@),
            scout@ == ScoutView::blank(
                id,
                start,
                world@,
                config,
                seed,
                bearings.penalty@,
                bearings.inside@,
            ).observed(world@, start),
    {
        let map_len = world.cell_count();
        let ghost blank = ScoutView::blank(id, start, world@, config, seed, bearings.penalty@, bearings.inside@);
        let mut scout = Scout {
            id,
            position: start,
            home: start,
            exploration_goal: None,
            bearings,
            ticks_without_sector_frontier: 0,
            turning: None,
            config,
            rng: seed_rng(seed),
            explored: vec![false; map_len],
            known_obstacle: vec![false; map_len],
            batch: Vec::new(),
            ticks_since_flush: 0,
            outbox: Outbox::new(tx),
            stats: ScoutStats::default(),
            world_width: world.width(),
            world_height: world.height(),
        };
        proof {
            lemma_count_none(scout.explored@);
            assert(scout@ =~= blank);
        }
        // Mark starting cell as explored.
        scout.observe_cell(start, world);
        scout
    }

    /// The current position of the scout.
    pub fn position(&self) -> (position: Position)
        ensures
            position == self@.position,
    {
        self.position
    }

    /// Where the scout set out from.
    pub fn home(&self) -> (home: Position)
        ensures
            home == self@.home,
    {
        self.home
    }

    /// Observe a single cell: mark explored, record obstacle and resource
    /// discoveries.
    fn observe_cell(&mut self, pos: Position, world: &World)
        requires
            old(self).wf(),
            world.wf(),
            old(self)@.knows(world@),
            old(self)@.holds(pos),
        ensures
            final(self).wf(),
            final(self)@.knows(world@),
            final(self)@ == old(self)@.observed(world@, pos),
    {
        proof {
            lemma_observed(self@, world@, pos);
            lemma_flat(self.world_width as int, self.world_height as int, pos);
        }
        let idx = flat_index(self.world_width, self.world_height, pos);
        if self.explored[idx] {
            return;
        }
        self.explored[idx] = true;
        self.stats.cells_explored += 1;
        match world.cell(pos) {
            Some(Cell::Obstacle) => {
                self.known_obstacle[idx] = true;
                self.batch.push(Discovery::Obstacle { position: pos });
                self.stats.discoveries_total += 1;
            },
            Some(Cell::Walkable) => {
                if let Some(resource) = world.resource_at(pos) {
                    self.batch.push(Discovery::Resource { position: pos, kind: resource.kind });
                    self.stats.discoveries_total += 1;
                }
            },
            None => {},
        }
    }

    /// The step toward `goal` over known ground, if there is a way.
    fn next_step_toward(&self, goal: Position) -> (step: Option<Position>)
        requires
            self.wf(),
            self@.holds(goal),
        ensures
            step == next_step(self@.known(), self@.position, goal),
            step matches Some(p) ==> self@.allows(p),
    {
        let step = step_toward(
            &self.explored,
            &self.known_obstacle,
            self.world_width,
            self.world_height,
            self.position,
            goal,
        );
        proof {
            if step is Some {
                lemma_step_allowed(self@, goal);
            }
        }
        step
    }

    fn has_unexplored_neighbor(&self, pos: Position) -> (found: bool)
        requires
            self.wf(),
        ensures
            found == borders_unknown(
                self@.width as int,
                self@.height as int,
                self@.explored,
                pos,
            ),
    {
        let ghost w = self@.width as int;
        let ghost h = self@.height as int;
        for dir in 0..4usize
            invariant
                self.wf(),
                w == self@.width,
                h == self@.height,
                forall|d: int|
                    0 <= d < dir ==> match #[trigger] neighbor_of(w, h, pos, d) {
                        Some(q) => self@.explored[flat(w, q)],
                        None => true,
                    },
        {
            if let Some(q) = neighbor(self.world_width, self.world_height, pos, dir) {
                let idx = flat_index(self.world_width, self.world_height, q);
                if !self.explored[idx] {
                    assert(neighbor_of(w, h, pos, dir as int) == Some(q));
                    return true;
                }
            }
        }
        false
    }

    /// All cells known to be walkable that border the unknown.
    fn global_frontier(&self) -> (frontier: Vec<Position>)
        requires
            self.wf(),
        ensures
            frontier@ == self@.frontier(),
    {
        let ghost w = self@.width as int;
        let ghost h = self@.height as int;
        let mut frontier: Vec<Position> = Vec::new();
        for idx in 0..self.explored.len()
            invariant
                self.wf(),
                w == self@.width,
                h == self@.height,
                frontier@ == frontier_upto(w, h, self@.explored, self@.obstacle, idx as nat),
        {
            if self.explored[idx] && !self.known_obstacle[idx] {
                let pos = index_to_position(self.world_width, idx);
                if self.has_unexplored_neighbor(pos) {
                    frontier.push(pos);
                }
            }
        }
        frontier
    }

    /// The frontier cells in the preferred sector.
    fn sector_frontier(&self, frontier: &Vec<Position>) -> (sector: Vec<Position>)
        requires
            self.wf(),
            forall|i: int| 0 <= i < frontier@.len() ==> self@.holds(#[trigger] frontier@[i]),
        ensures
            sector@ == frontier@.filter(|p: Position| self@.inside[flat(self@.width as int, p)]),
    {
        let ghost keep = |p: Position| self@.inside[flat(self@.width as int, p)];
        let mut sector: Vec<Position> = Vec::new();
        proof {
            assert(frontier@.take(0).filter(keep) =~= Seq::empty()) by {
                reveal(Seq::filter);
            }
        }
        for i in 0..frontier.len()
            invariant
                self.wf(),
                forall|i: int| 0 <= i < frontier@.len() ==> self@.holds(#[trigger] frontier@[i]),
                keep == (|p: Position| self@.inside[flat(self@.width as int, p)]),
                sector@ == frontier@.take(i as int).filter(keep),
        {
            let p = frontier[i];
            proof {
                lemma_flat(self@.width as int, self@.height as int, p);
                lemma_filter_push(frontier@.take(i as int), p, keep);
                assert(frontier@.take(i + 1) =~= frontier@.take(i as int).push(p));
            }
            let idx = flat_index(self.world_width, self.world_height, p);
            if self.bearings.inside[idx] {
                sector.push(p);
            }
        }
        assert(frontier@.take(frontier@.len() as int) =~= frontier@);
        sector
    }

    /// How promising a cell is.
    fn frontier_score(&self, goal: Position) -> (score: i128)
        requires
            self.wf(),
            self@.holds(goal),
        ensures
            score == self@.score(goal),
    {
        proof {
            lemma_flat(self@.width as int, self@.height as int, goal);
        }
        let current_to_goal = manhattan(self.position, goal) as i128;
        let home_to_goal = manhattan(self.home, goal) as i128;
        let idx = flat_index(self.world_width, self.world_height, goal);
        current_to_goal + home_to_goal * 2 - self.bearings.penalty[idx] as i128
    }

    /// The first of the most promising cells.
    fn best_goal(&self, cells: &Vec<Position>) -> (best: Option<Position>)
        requires
            self.wf(),
            forall|i: int| 0 <= i < cells@.len() ==> self@.holds(#[trigger] cells@[i]),
        ensures
            best == self@.best(cells@),
            best matches Some(p) ==> self@.holds(p),
    {
        let mut best: Option<Position> = None;
        for i in 0..cells.len()
            invariant
                self.wf(),
                forall|i: int| 0 <= i < cells@.len() ==> self@.holds(#[trigger] cells@[i]),
                best == self@.best(cells@.take(i as int)),
                best matches Some(p) ==> self@.holds(p),
        {
            let p = cells[i];
            proof {
                assert(cells@.take(i + 1).drop_last() =~= cells@.take(i as int));
            }
            let better = match best {
                Some(q) => self.frontier_score(p) > self.frontier_score(q),
                None => true,
            };
            if better {
                best = Some(p);
            }
        }
        assert(cells@.take(cells@.len() as int) =~= cells@);
        best
    }

    /// The neighbours of the scout that hold no known obstacle.
    fn walkable_neighbors(&self) -> (exits: Vec<Position>)
        requires
            self.wf(),
        ensures
            exits@ == self@.exits(),
            forall|i: int| 0 <= i < exits@.len() ==> self@.allows(#[trigger] exits@[i]),
    {
        let ghost w = self@.width as int;
        let ghost h = self@.height as int;
        let ghost keep = |p: Position| !self@.obstacle[flat(self@.width as int, p)];
        let neighbors = cardinal_neighbors(self.world_width, self.world_height, self.position);
        let mut exits: Vec<Position> = Vec::new();
        proof {
            assert(neighbors@.take(0).filter(keep) =~= Seq::empty()) by {
                reveal(Seq::filter);
            }
        }
        for i in 0..neighbors.len()
            invariant
                self.wf(),
                w == self@.width,
                h == self@.height,
                keep == (|p: Position| !self@.obstacle[flat(self@.width as int, p)]),
                neighbors@ == cardinal(w, h, self@.position),
                exits@ == neighbors@.take(i as int).filter(keep),
                forall|i: int| 0 <= i < exits@.len() ==> self@.allows(#[trigger] exits@[i]),
        {
            let p = neighbors[i];
            proof {
                assert(neighbors@.contains(p));
                lemma_cardinal(w, h, self@.position, p);
                lemma_flat(w, h, p);
                lemma_filter_push(neighbors@.take(i as int), p, keep);
                assert(neighbors@.take(i + 1) =~= neighbors@.take(i as int).push(p));
            }
            let idx = flat_index(self.world_width, self.world_height, p);
            if !self.known_obstacle[idx] {
                exits.push(p);
            }
        }
        assert(neighbors@.take(neighbors@.len() as int) =~= neighbors@);
        exits
    }

    /// A step toward the most promising of `cells`, or a random one where there
    /// is no way there.
    fn pursue(&mut self, cells: &Vec<Position>) -> (step: Option<Position>)
        requires
            old(self).wf(),
            forall|i: int| 0 <= i < cells@.len() ==> old(self)@.holds(#[trigger] cells@[i]),
        ensures
            (step, final(self)@) == old(self)@.pursued(cells@),
            step matches Some(p) ==> old(self)@.allows(p),
            step is None ==> old(self)@.exits().len() == 0,
            final(self).wf(),
    {
        let best = self.best_goal(cells);
        if let Some(goal) = best {
            if let Some(step) = self.next_step_toward(goal) {
                self.exploration_goal = Some(goal);
                return Some(step);
            }
        }
        self.exploration_goal = None;
        proof {
            lemma_same_exits(old(self)@, self@);
        }
        self.random_choice()
    }

    /// Pick a step that pushes the scout toward less explored regions, or wait
    /// to be turned.
    fn pick_target(&mut self, stray: bool) -> (step: Option<Position>)
        requires
            old(self).wf(),
            old(self)@.turning is None,
            old(self)@.mid_tick(),
        ensures
            (step, final(self)@) == old(self)@.decided_on(stray),
            step matches Some(p) ==> old(self)@.allows(p) && final(self)@.turning is None,
            step is None && final(self)@.turning is None ==> old(self)@.exits().len() == 0,
            final(self).wf(),
    {
        if stray {
            return self.random_choice();
        }
        let frontier = self.global_frontier();
        if frontier.len() == 0 {
            self.exploration_goal = None;
            proof {
                lemma_same_exits(old(self)@, self@);
            }
            return self.random_choice();
        }
        if let Some(goal) = self.exploration_goal {
            if let Some(step) = self.next_step_toward(goal) {
                return Some(step);
            }
        }
        proof {
            lemma_frontier_on_map(
                self@.width as int,
                self@.height as int,
                self@.explored,
                self@.obstacle,
                (self@.width * self@.height) as nat,
            );
            assert forall|i: int| 0 <= i < frontier@.len() implies self@.holds(#[trigger] frontier@[i]) by {
                assert(frontier@.contains(frontier@[i]));
            }
        }
        // Prefer frontiers inside this scout's sector if any exist.
        let sector = self.sector_frontier(&frontier);
        if sector.len() > 0 {
            proof {
                assert forall|i: int| 0 <= i < sector@.len() implies self@.holds(#[trigger] sector@[i]) by {
                    assert(sector@.contains(sector@[i]));
                    lemma_filtered(
                        frontier@,
                        |p: Position| self@.inside[flat(self@.width as int, p)],
                        sector@[i],
                    );
                    let k = choose|k: int| 0 <= k < frontier@.len() && frontier@[k] == sector@[i];
                    assert(self@.holds(frontier@[k]));
                }
            }
            self.ticks_without_sector_frontier = 0;
            proof {
                lemma_same_exits(old(self)@, self@);
            }
            return self.pursue(&sector);
        }
        if self.ticks_without_sector_frontier < SECTOR_TIMEOUT {
            self.ticks_without_sector_frontier += 1;
            proof {
                lemma_same_exits(old(self)@, self@);
            }
            return self.pursue(&frontier);
        }
        // No frontier in the sector for a while: turn to the most promising
        // frontier observed anywhere.
        let best = self.best_goal(&frontier);
        proof {
            law_best_is_most_promising(self@, frontier@);
        }
        self.ticks_without_sector_frontier = 0;
        self.exploration_goal = best;
        self.turning = best;
        None
    }

    /// Books what became of a batch that was offered to the base. A full
    /// channel hands the discoveries back, to be offered again.
    pub fn settle(&mut self, outcome: SendOutcome<ScoutMessage>)
        requires
            old(self)@.stats.messages_sent < u64::MAX,
            old(self)@.stats.messages_dropped < u64::MAX,
        ensures
            final(self)@ == match outcome {
                SendOutcome::Sent => ScoutView {
                    stats: ScoutStats {
                        messages_sent: (old(self)@.stats.messages_sent + 1) as u64,
                        ..old(self)@.stats
                    },
                    ..old(self)@
                },
                SendOutcome::Full(message) => ScoutView {
                    batch: message.discoveries@,
                    stats: ScoutStats {
                        messages_dropped: (old(self)@.stats.messages_dropped + 1) as u64,
                        ..old(self)@.stats
                    },
                    ..old(self)@
                },
                SendOutcome::Closed(_) => ScoutView {
                    stats: ScoutStats {
                        messages_dropped: (old(self)@.stats.messages_dropped + 1) as u64,
                        ..old(self)@.stats
                    },
                    ..old(self)@
                },
            },
            final(self)@ == old(self)@.settled_by(outcome),
    {
        match outcome {
            SendOutcome::Sent => {
                self.stats.messages_sent += 1;
            },
            SendOutcome::Full(message) => {
                self.stats.messages_dropped += 1;
                self.batch = message.discoveries;
            },
            SendOutcome::Closed(_) => {
                self.stats.messages_dropped += 1;
            },
        }
    }

    /// Flush the discovery batch to the base channel.
    fn flush_batch(&mut self)
        requires
            old(self)@.stats.messages_sent < u64::MAX,
            old(self)@.stats.messages_dropped < u64::MAX,
        ensures
            old(self)@.flushed(final(self)@),
    {
        self.ticks_since_flush = 0;
        if self.batch.len() == 0 {
            return;
        }
        let mut discoveries: Vec<Discovery> = Vec::new();
        std::mem::swap(&mut discoveries, &mut self.batch);
        let message = ScoutMessage { scout_id: self.id, discoveries };
        let ghost sent = message;
        let ghost before = self.outbox;
        let outcome = self.outbox.offer(message);
        proof {
            assert(reports(before.offered().push(sent)) =~= reports(before.offered()).push(
                Report { scout_id: sent.scout_id, discoveries: sent.discoveries@ },
            ));
            assert(reports(before.taken().push(sent)) =~= reports(before.taken()).push(
                Report { scout_id: sent.scout_id, discoveries: sent.discoveries@ },
            ));
        }
        self.settle(outcome);
    }

    /// The rest of a tick: step, look, and flush if it is time.
    fn finish(&mut self, world: &World, step: Option<Position>)
        requires
            old(self).wf(),
            world.wf(),
            old(self)@.knows(world@),
            old(self)@.turning is None,
            old(self)@.mid_tick(),
            step matches Some(p) ==> old(self)@.allows(p),
        ensures
            final(self).wf(),
            final(self)@.knows(world@),
            final(self)@.turning is None,
            old(self)@.finished(world@, step, final(self)@),
            final(self)@.stats.ticks == old(self)@.stats.ticks,
            final(self)@.position == match step {
                Some(p) => p,
                None => old(self)@.position,
            },
            forall|i: int|
                0 <= i < old(self)@.explored.len() && #[trigger] old(self)@.explored[i] ==> final(self)@.explored[i],
    {
        if let Some(pos) = step {
            self.position = pos;
            proof {
                lemma_knows_same(old(self)@, self@, world@);
                lemma_observed(self@, world@, pos);
            }
            self.observe_cell(pos, world);
        }
        let ghost moved = self@;
        self.ticks_since_flush += 1;
        if self.ticks_since_flush >= self.config.flush_interval || self.batch.len() >= self.config.batch_capacity {
            self.flush_batch();
        }
        proof {
            lemma_knows_same(moved, self@, world@);
        }
    }

    /// Advance one tick: observe surroundings, pick a move, step, maybe flush.
    ///
    /// Where this returns a position, the scout has found nothing in its sector
    /// for too long: [`Scout::turn`] must hand it the bearings for the direction
    /// of that position, and finishes the tick.
    pub fn tick(&mut self, world: &World) -> (turn: Option<Position>)
        requires
            old(self).wf(),
            world.wf(),
            old(self)@.knows(world@),
            old(self)@.turning is None,
            old(self)@.stats.ticks < u64::MAX,
        ensures
            final(self).wf(),
            final(self)@.knows(world@),
            turn == final(self)@.turning,
            old(self)@.ticked(world@, final(self)@),
            final(self)@.stats.ticks == old(self)@.stats.ticks + 1,
            final(self)@.position == old(self)@.position || adjacent(old(self)@.position, final(self)@.position),
            final(self)@.turning is None ==> (final(self)@.position != old(self)@.position <==> old(self)@.has_exit(
                world@,
            )),
            final(self)@.turning is Some ==> final(self)@.position == old(self)@.position,
            world@.grid().is_free(old(self)@.position) ==> world@.grid().is_free(final(self)@.position),
            forall|i: int|
                0 <= i < old(self)@.explored.len() && #[trigger] old(self)@.explored[i] ==> final(self)@.explored[i],
    {
        // Small randomness keeps the scouts from perfectly overlapping.
        let stray = random_chance(&mut self.rng, self.config.random_move_probability, CERTAIN);
        proof {
            lemma_knows_same(old(self)@, self@, world@);
        }
        self.tick_on(world, stray)
    }

    /// Advance one tick, knowing whether the scout strays from its way.
    pub fn tick_on(&mut self, world: &World, stray: bool) -> (turn: Option<Position>)
        requires
            old(self).wf(),
            world.wf(),
            old(self)@.knows(world@),
            old(self)@.turning is None,
            old(self)@.stats.ticks < u64::MAX,
        ensures
            final(self).wf(),
            final(self)@.knows(world@),
            turn == final(self)@.turning,
            old(self)@.ticked_on(world@, stray, final(self)@),
            final(self)@.stats.ticks == old(self)@.stats.ticks + 1,
            final(self)@.position == old(self)@.position || adjacent(old(self)@.position, final(self)@.position),
            final(self)@.turning is None ==> (final(self)@.position != old(self)@.position <==> old(self)@.has_exit(
                world@,
            )),
            final(self)@.turning is Some ==> final(self)@.position == old(self)@.position,
            world@.grid().is_free(old(self)@.position) ==> world@.grid().is_free(final(self)@.position),
            forall|i: int|
                0 <= i < old(self)@.explored.len() && #[trigger] old(self)@.explored[i] ==> final(self)@.explored[i],
    {
        self.stats.ticks += 1;
        let ghost counted = self@;
        proof {
            lemma_knows_same(old(self)@, counted, world@);
        }
        let neighbors = cardinal_neighbors(self.world_width, self.world_height, self.position);
        proof {
            assert forall|i: int| 0 <= i < neighbors@.len() implies counted.holds(#[trigger] neighbors@[i]) by {
                assert(neighbors@.contains(neighbors@[i]));
                lemma_cardinal(counted.width as int, counted.height as int, counted.position, neighbors@[i]);
            }
        }
        for i in 0..neighbors.len()
            invariant
                world.wf(),
                counted.wf(),
                counted.knows(world@),
                forall|k: int| 0 <= k < neighbors@.len() ==> counted.holds(#[trigger] neighbors@[k]),
                self@ == counted.observed_all(world@, neighbors@.take(i as int)),
        {
            proof {
                lemma_observed_all(counted, world@, neighbors@.take(i as int));
                assert(neighbors@.take(i + 1).drop_last() =~= neighbors@.take(i as int));
            }
            self.observe_cell(neighbors[i], world);
        }
        proof {
            assert(neighbors@.take(neighbors@.len() as int) =~= neighbors@);
            lemma_observed_all(counted, world@, neighbors@);
            lemma_alert(old(self)@, world@);
        }
        let ghost alert = self@;
        let step = self.pick_target(stray);
        proof {
            lemma_decided_keeps(alert, stray);
            lemma_exits_are_walkable(alert, world@);
            if let Some(p) = step {
                lemma_allowed_is_walkable(alert, world@, p);
            }
            lemma_knows_same(alert, self@, world@);
        }
        if self.turning.is_some() {
            return self.turning;
        }
        self.finish(world, step);
        None
    }

    /// Hands the scout the bearings for the direction that it asked for, and
    /// finishes its tick.
    pub fn turn(&mut self, world: &World, bearings: Bearings)
        requires
            old(self).wf(),
            world.wf(),
            old(self)@.knows(world@),
            old(self)@.turning is Some,
            bearings.cover(world@.cells.len()),
        ensures
            final(self).wf(),
            final(self)@.knows(world@),
            final(self)@.turning is None,
            old(self)@.turned(world@, bearings.penalty@, bearings.inside@, final(self)@),
            final(self)@.stats.ticks == old(self)@.stats.ticks,
            final(self)@.position == old(self)@.position || adjacent(old(self)@.position, final(self)@.position),
            final(self)@.position != old(self)@.position <==> old(self)@.has_exit(world@),
            world@.grid().is_free(old(self)@.position) ==> world@.grid().is_free(final(self)@.position),
            forall|i: int|
                0 <= i < old(self)@.explored.len() && #[trigger] old(self)@.explored[i] ==> final(self)@.explored[i],
    {
        self.bearings = bearings;
        self.turning = None;
        let ghost facing = self@;
        proof {
            lemma_knows_same(old(self)@, facing, world@);
        }
        let frontier = self.global_frontier();
        proof {
            lemma_frontier_on_map(
                self@.width as int,
                self@.height as int,
                self@.explored,
                self@.obstacle,
                (self@.width * self@.height) as nat,
            );
            assert forall|i: int| 0 <= i < frontier@.len() implies self@.holds(#[trigger] frontier@[i]) by {
                assert(frontier@.contains(frontier@[i]));
            }
        }
        let step = self.pursue(&frontier);
        proof {
            lemma_exits_are_walkable(facing, world@);
            if let Some(p) = step {
                lemma_allowed_is_walkable(facing, world@, p);
            }
            lemma_knows_same(facing, self@, world@);
        }
        self.finish(world, step);
    }

    /// A random step among the exits.
    fn random_choice(&mut self) -> (step: Option<Position>)
        requires
            old(self).wf(),
        ensures
            (step, final(self)@) == old(self)@.strayed(),
            step matches Some(p) ==> old(self)@.allows(p),
            step is Some <==> old(self)@.exits().len() > 0,
            final(self).wf(),
    {
        let exits = self.walkable_neighbors();
        if exits.len() == 0 {
            return None;
        }
        let draw = random_below(&mut self.rng, exits.len());
        Some(exits[draw])
    }
}

/// Deciding changes what the scout intends, not what it knows.
proof fn lemma_decided_keeps(c: ScoutView, stray: bool)
    ensures
        c.decided_on(stray).1 == (ScoutView {
            goal: c.decided_on(stray).1.goal,
            misses: c.decided_on(stray).1.misses,
            turning: c.decided_on(stray).1.turning,
            rng: c.decided_on(stray).1.rng,
            ..c
        }),
{
}

/// A cell that the scout may step into is walkable, once it has looked around.
proof fn lemma_allowed_is_walkable(c: ScoutView, world: WorldView, p: Position)
    requires
        world.wf(),
        c.wf(),
        c.mid_tick(),
        c.knows(world),
        c.allows(p),
    ensures
        world.grid().is_free(p),
{
    lemma_flat(c.width as int, c.height as int, p);
    assert(c.explored[flat(c.width as int, p)]);
}

/// The exits depend on where the scout stands and what it knows of obstacles.
proof fn lemma_same_exits(a: ScoutView, b: ScoutView)
    requires
        a.width == b.width,
        a.height == b.height,
        a.position == b.position,
        a.obstacle == b.obstacle,
    ensures
        a.exits() == b.exits(),
{
    assert((|p: Position| !a.obstacle[flat(a.width as int, p)]) =~= (|p: Position|
        !b.obstacle[flat(b.width as int, p)]));
}

/// Once it has looked around, a scout sees an exit exactly where a step leads
/// to a walkable cell.
proof fn lemma_exits_are_walkable(c: ScoutView, world: WorldView)
    requires
        world.wf(),
        c.wf(),
        c.mid_tick(),
        c.knows(world),
    ensures
        c.exits().len() > 0 <==> c.has_exit(world),
{
    let w = c.width as int;
    let h = c.height as int;
    let cells = cardinal(w, h, c.position);
    let keep = |p: Position| !c.obstacle[flat(c.width as int, p)];
    if c.exits().len() > 0 {
        let p = c.exits()[0];
        assert(c.exits().contains(p));
        lemma_filtered(cells, keep, p);
        lemma_cardinal(w, h, c.position, p);
        lemma_allowed_is_walkable(c, world, p);
    }
    if c.has_exit(world) {
        let q = choose|q: Position| #[trigger] adjacent(c.position, q) && world.grid().is_free(q);
        lemma_flat(w, h, q);
        assert(c.explored[flat(w, q)]);
        lemma_cardinal(w, h, c.position, q);
        let k = choose|k: int| 0 <= k < cells.len() && cells[k] == q;
        cells.filter_lemma(keep);
        assert(keep(cells[k]));
        assert(c.exits().contains(cells[k]));
    }
}

proof fn lemma_step_allowed(c: ScoutView, goal: Position)
    requires
        c.wf(),
        next_step(c.known(), c.position, goal) is Some,
    ensures
        c.allows(next_step(c.known(), c.position, goal)->0),
        c.known().is_free(next_step(c.known(), c.position, goal)->0),
{
    let steps = choose|steps: nat| walk(c.known(), c.position, goal, steps);
    let least = lemma_shortest_exists(c.known(), c.position, goal, steps);
    law_next_step_is_closer(c.known(), c.position, goal, least);
    lemma_flat(c.width as int, c.height as int, next_step(c.known(), c.position, goal)->0);
}

/// A flush loses no discovery unless the channel is closed: what the channel
/// has taken and what the scout still holds stay the same, in order. A closed
/// channel costs the batch, and is counted.
pub proof fn law_flush_keeps_discoveries(c: ScoutView, next: ScoutView)
    requires
        c.flushed(next),
        c.stats.messages_dropped < u64::MAX,
    ensures
        contents(next.taken) + next.batch == contents(c.taken) + c.batch || {
            &&& next.batch.len() == 0
            &&& next.taken == c.taken
            &&& next.stats.messages_dropped == c.stats.messages_dropped + 1
        },
{
    if c.batch.len() > 0 {
        let report = Report { scout_id: c.id, discoveries: c.batch };
        assert(c.taken.push(report).drop_last() =~= c.taken);
        assert((contents(c.taken) + c.batch) + Seq::<Discovery>::empty() =~= contents(c.taken) + c.batch);
    }
}

/// What a scout offers to the base is true of the world.
pub proof fn law_reports_are_truthful(c: ScoutView, next: ScoutView, world: WorldView, i: int, k: int)
    requires
        c.knows(world),
        c.flushed(next),
        c.offered.len() <= i < next.offered.len(),
        0 <= k < next.offered[i].discoveries.len(),
    ensures
        truthful(world, next.offered[i].discoveries[k]),
{
    assert(truthful(world, c.batch[k]));
}

/// A second look at a cell reports nothing new.
pub proof fn law_cells_are_reported_once(c: ScoutView, world: WorldView, p: Position)
    requires
        world.wf(),
        c.wf(),
        c.knows(world),
        c.holds(p),
    ensures
        c.observed(world, p).observed(world, p) == c.observed(world, p),
{
    lemma_observed(c, world, p);
}

proof fn lemma_no_frontier(width: int, height: int, explored: Seq<bool>, obstacle: Seq<bool>, upto: nat, i: int)
    requires
        frontier_upto(width, height, explored, obstacle, upto).len() == 0,
        0 <= i < upto,
    ensures
        !is_frontier(width, height, explored, obstacle, i),
    decreases upto,
{
    if i < upto - 1 {
        lemma_no_frontier(width, height, explored, obstacle, (upto - 1) as nat, i);
    }
}

/// Once a scout knows of no frontier, it has explored every cell that can be
/// walked to from where it stands.
pub proof fn law_no_frontier_means_all_explored(c: ScoutView, world: WorldView, p: Position)
    requires
        world.wf(),
        c.wf(),
        c.knows(world),
        world.grid().is_free(c.position),
        c.explored[flat(c.width as int, c.position)],
        c.frontier().len() == 0,
        connected(world.grid(), c.position, p),
    ensures
        c.explored[flat(c.width as int, p)],
{
    let g = world.grid();
    let w = c.width as int;
    let h = c.height as int;
    let steps = choose|steps: nat| walk(g, c.position, p, steps);
    let held = |q: Position| c.holds(q) && g.is_free(q) && c.explored[flat(w, q)];
    assert forall|a: Position, b: Position|
        #![trigger held(a), adjacent(a, b)]
        held(a) && adjacent(a, b) && g.is_free(b) implies held(b) by {
        lemma_flat(w, h, a);
        lemma_flat(w, h, b);
        lemma_no_frontier(w, h, c.explored, c.obstacle, (c.width * c.height) as nat, flat(w, a));
        lemma_neighbors(w, h, a, b);
        let dir = choose|dir: int| 0 <= dir < 4 && #[trigger] neighbor_of(w, h, a, dir) == Some(b);
        assert(neighbor_of(w, h, a, dir) == Some(b));
    }
    lemma_closed_holds(g, c.position, p, steps, held);
}

/// A look at several cells of the map: all of them have been explored then,
/// and what the scout knew it still knows.
proof fn lemma_observed_all(c: ScoutView, world: WorldView, cells: Seq<Position>)
    requires
        world.wf(),
        c.wf(),
        c.knows(world),
        forall|i: int| 0 <= i < cells.len() ==> c.holds(#[trigger] cells[i]),
    ensures
        ({
            let next = c.observed_all(world, cells);
            &&& next.wf()
            &&& next.knows(world)
            &&& next == (ScoutView {
                explored: next.explored,
                obstacle: next.obstacle,
                batch: next.batch,
                stats: next.stats,
                ..c
            })
            &&& next.stats.ticks == c.stats.ticks
            &&& next.stats.messages_sent == c.stats.messages_sent
            &&& next.stats.messages_dropped == c.stats.messages_dropped
            &&& forall|i: int| 0 <= i < cells.len() ==> next.explored[flat(c.width as int, #[trigger] cells[i])]
            &&& forall|i: int| 0 <= i < c.explored.len() && #[trigger] c.explored[i] ==> next.explored[i]
        }),
    decreases cells.len(),
{
    if cells.len() > 0 {
        let front = cells.drop_last();
        let before = c.observed_all(world, front);
        let next = c.observed_all(world, cells);
        assert forall|i: int| 0 <= i < front.len() implies c.holds(#[trigger] front[i]) by {
            assert(front[i] == cells[i]);
        }
        lemma_observed_all(c, world, front);
        assert(c.holds(cells[cells.len() - 1]));
        lemma_observed(before, world, cells.last());
        assert forall|i: int| 0 <= i < cells.len() implies next.explored[flat(
            c.width as int,
            #[trigger] cells[i],
        )] by {
            lemma_flat(c.width as int, c.height as int, cells[i]);
            if i < front.len() {
                assert(before.explored[flat(c.width as int, front[i])]);
            }
        }
    }
}

/// Once it has looked at its neighbourhood, a scout is in the middle of a tick.
proof fn lemma_alert(c: ScoutView, world: WorldView)
    requires
        world.wf(),
        c.wf(),
        c.knows(world),
        c.turning is None,
        c.stats.ticks < u64::MAX,
    ensures
        c.alert(world).wf(),
        c.alert(world).knows(world),
        c.alert(world).mid_tick(),
        c.alert(world).turning is None,
        c.alert(world).position == c.position,
{
    let w = c.width as int;
    let h = c.height as int;
    let counted = ScoutView { stats: ScoutStats { ticks: (c.stats.ticks + 1) as u64, ..c.stats }, ..c };
    let cells = cardinal(w, h, c.position);
    lemma_knows_same(c, counted, world);
    assert forall|i: int| 0 <= i < cells.len() implies counted.holds(#[trigger] cells[i]) by {
        assert(cells.contains(cells[i]));
        lemma_cardinal(w, h, c.position, cells[i]);
    }
    lemma_observed_all(counted, world, cells);
    let alert = c.alert(world);
    assert forall|q: Position|
        #![trigger alert.explored[flat(alert.width as int, q)]]
        alert.holds(q) && adjacent(alert.position, q) implies alert.explored[flat(alert.width as int, q)] by {
        lemma_cardinal(w, h, c.position, q);
        let k = choose|k: int| 0 <= k < cells.len() && cells[k] == q;
        assert(alert.explored[flat(w, cells[k])]);
    }
}

/// A random step is an allowed one.
proof fn lemma_strayed(c: ScoutView)
    requires
        c.wf(),
    ensures
        c.strayed().0 matches Some(p) ==> c.allows(p),
        c.strayed().1.wf(),
        c.strayed().1 == (ScoutView { rng: c.strayed().1.rng, ..c }),
{
    if let Some(p) = c.strayed().0 {
        let w = c.width as int;
        let h = c.height as int;
        assert(c.exits().contains(p));
        lemma_filtered(cardinal(w, h, c.position), |p: Position| !c.obstacle[flat(c.width as int, p)], p);
        lemma_cardinal(w, h, c.position, p);
    }
}

/// A step toward one of several cells of the map is an allowed one.
proof fn lemma_pursued(c: ScoutView, cells: Seq<Position>)
    requires
        c.wf(),
        forall|i: int| 0 <= i < cells.len() ==> c.holds(#[trigger] cells[i]),
    ensures
        c.pursued(cells).0 matches Some(p) ==> c.allows(p),
        c.pursued(cells).1.wf(),
        c.pursued(cells).1 == (ScoutView { goal: c.pursued(cells).1.goal, rng: c.pursued(cells).1.rng, ..c }),
{
    let lost = ScoutView { goal: None, ..c };
    assert(lost.wf());
    lemma_strayed(lost);
    law_best_is_most_promising(c, cells);
    if let Some(goal) = c.best(cells) {
        let k = choose|k: int| 0 <= k < cells.len() && cells[k] == goal;
        assert(c.holds(cells[k]));
        if next_step(c.known(), c.position, goal) is Some {
            lemma_step_allowed(c, goal);
            assert((ScoutView { goal: Some(goal), ..c }).wf());
        }
    }
}

/// The step that a scout decides on is an allowed one.
proof fn lemma_decided(c: ScoutView, stray: bool)
    requires
        c.wf(),
        c.turning is None,
        c.mid_tick(),
    ensures
        c.decided_on(stray).0 matches Some(p) ==> c.allows(p) && c.decided_on(stray).1.turning is None,
        c.decided_on(stray).1.wf(),
{
    let w = c.width as int;
    let h = c.height as int;
    let frontier = c.frontier();
    lemma_strayed(c);
    let lost = ScoutView { goal: None, ..c };
    assert(lost.wf());
    lemma_strayed(lost);
    if c.on_the_way() is Some {
        lemma_step_allowed(c, c.goal->0);
    }
    lemma_frontier_on_map(w, h, c.explored, c.obstacle, (c.width * c.height) as nat);
    assert forall|i: int| 0 <= i < frontier.len() implies c.holds(#[trigger] frontier[i]) by {
        assert(frontier.contains(frontier[i]));
    }
    let sector = c.sector();
    assert forall|i: int| 0 <= i < sector.len() implies c.holds(#[trigger] sector[i]) by {
        assert(sector.contains(sector[i]));
        lemma_filtered(frontier, |p: Position| c.inside[flat(c.width as int, p)], sector[i]);
        let k = choose|k: int| 0 <= k < frontier.len() && frontier[k] == sector[i];
        assert(c.holds(frontier[k]));
    }
    let found = ScoutView { misses: 0, ..c };
    assert(found.wf());
    lemma_pursued(found, sector);
    if c.misses < SECTOR_TIMEOUT {
        let missed = ScoutView { misses: (c.misses + 1) as u32, ..c };
        assert(missed.wf());
        lemma_pursued(missed, frontier);
    }
    law_best_is_most_promising(c, frontier);
    if let Some(goal) = c.best(frontier) {
        let k = choose|k: int| 0 <= k < frontier.len() && frontier[k] == goal;
        assert(c.holds(frontier[k]));
    }
}

/// A tick that ends with an allowed step leaves the scout in order.
proof fn lemma_finished(c: ScoutView, world: WorldView, step: Option<Position>, next: ScoutView)
    requires
        world.wf(),
        c.wf(),
        c.knows(world),
        c.turning is None,
        c.mid_tick(),
        step matches Some(p) ==> c.allows(p),
        c.finished(world, step, next),
    ensures
        next.wf(),
        next.knows(world),
        next.turning is None,
        next.position == match step {
            Some(p) => p,
            None => c.position,
        },
{
    let moved = c.moved(world, step);
    if let Some(p) = step {
        let there = ScoutView { position: p, ..c };
        lemma_knows_same(c, there, world);
        lemma_observed(there, world, p);
    }
    lemma_knows_same(moved, next, world);
}

/// A scout's tick, or the part of it before the scout is turned, leaves it in
/// order, and on a walkable cell where it stood on one.
pub proof fn law_scout_tick_keeps_footing(c: ScoutView, world: WorldView, next: ScoutView)
    requires
        world.wf(),
        c.wf(),
        c.knows(world),
        c.turning is None,
        c.stats.ticks < u64::MAX,
        world.grid().is_free(c.position),
        c.ticked(world, next),
    ensures
        next.wf(),
        next.knows(world),
        world.grid().is_free(next.position),
{
    let (stray, rng) = drawn_chance(c.rng, c.config.random_move_probability, CERTAIN);
    let drawn = ScoutView { rng, ..c };
    lemma_knows_same(c, drawn, world);
    lemma_alert(drawn, world);
    let alert = drawn.alert(world);
    lemma_decided(alert, stray);
    lemma_decided_keeps(alert, stray);
    let (step, d) = alert.decided_on(stray);
    lemma_knows_same(alert, d, world);
    if let Some(p) = step {
        lemma_allowed_is_walkable(alert, world, p);
    }
    if d.turning is None {
        assert(d.mid_tick());
        assert(step matches Some(p) ==> d.allows(p));
        lemma_finished(d, world, step, next);
    }
}

/// A scout that has been turned finishes its tick in order, and on a walkable
/// cell where it stood on one.
pub proof fn law_scout_turn_keeps_footing(
    c: ScoutView,
    world: WorldView,
    penalty: Seq<u8>,
    inside: Seq<bool>,
    next: ScoutView,
)
    requires
        world.wf(),
        c.wf(),
        c.knows(world),
        c.turning is Some,
        penalty.len() == world.cells.len(),
        inside.len() == world.cells.len(),
        world.grid().is_free(c.position),
        c.turned(world, penalty, inside, next),
    ensures
        next.wf(),
        next.knows(world),
        next.turning is None,
        world.grid().is_free(next.position),
{
    let w = c.width as int;
    let h = c.height as int;
    let frontier = c.frontier();
    let facing = ScoutView { penalty, inside, turning: None, ..c };
    assert(facing.wf());
    lemma_knows_same(c, facing, world);
    lemma_frontier_on_map(w, h, c.explored, c.obstacle, (c.width * c.height) as nat);
    assert forall|i: int| 0 <= i < frontier.len() implies facing.holds(#[trigger] frontier[i]) by {
        assert(frontier.contains(frontier[i]));
    }
    lemma_pursued(facing, frontier);
    let (step, d) = facing.pursued(frontier);
    lemma_knows_same(facing, d, world);
    assert(facing.mid_tick());
    if let Some(p) = step {
        lemma_allowed_is_walkable(facing, world, p);
    }
    assert(d.mid_tick());
    assert(step matches Some(p) ==> d.allows(p));
    lemma_finished(d, world, step, next);
}

/// How promising a cell is: a step farther from the scout adds one, a step
/// farther from home adds two, and every point off the preferred direction takes
/// one away.
pub proof fn law_promise_grows_with_distance_and_direction(c: ScoutView, p: Position, q: Position)
    ensures
        ({
            let off_p = c.penalty[flat(c.width as int, p)];
            let off_q = c.penalty[flat(c.width as int, q)];
            let near = distance(c.position, p) == distance(c.position, q);
            let home = distance(c.home, p) == distance(c.home, q);
            &&& near && home && off_p < off_q ==> c.score(p) > c.score(q)
            &&& near && home && off_p == off_q ==> c.score(p) == c.score(q)
            &&& near && off_p == off_q && distance(c.home, p) > distance(c.home, q) ==> c.score(p) > c.score(q)
            &&& home && off_p == off_q && distance(c.position, p) > distance(c.position, q) ==> c.score(p) > c.score(q)
            &&& c.score(p) - c.score(q) == (distance(c.position, p) - distance(c.position, q)) + 2 * (distance(
                c.home,
                p,
            ) - distance(c.home, q)) + (off_q - off_p)
        }),
{
}

/// Of equally promising cells the first is the best.
pub proof fn law_best_is_the_first_of_its_kind(c: ScoutView, cells: Seq<Position>) -> (k: int)
    requires
        cells.len() > 0,
    ensures
        0 <= k < cells.len(),
        c.best(cells) == Some(cells[k]),
        forall|j: int| 0 <= j < cells.len() ==> c.score(#[trigger] cells[j]) <= c.score(cells[k]),
        forall|j: int| 0 <= j < k ==> c.score(#[trigger] cells[j]) < c.score(cells[k]),
    decreases cells.len(),
{
    let front = cells.drop_last();
    if front.len() == 0 {
        0
    } else {
        let k = law_best_is_the_first_of_its_kind(c, front);
        let last = cells.len() - 1;
        assert forall|j: int| 0 <= j < last implies c.score(#[trigger] cells[j]) <= c.score(front[k]) by {
            assert(cells[j] == front[j]);
        }
        if c.score(cells[last]) > c.score(front[k]) {
            last
        } else {
            assert forall|j: int| 0 <= j < k implies c.score(#[trigger] cells[j]) < c.score(cells[k]) by {
                assert(cells[j] == front[j]);
            }
            k
        }
    }
}

/// Whether positions come row by row, each once.
pub open spec fn row_by_row(cells: Seq<Position>, width: int) -> bool {
    forall|i: int, j: int| 0 <= i < j < cells.len() ==> flat(width, #[trigger] cells[i]) < flat(width, #[trigger] cells[j])
}

proof fn lemma_frontier_rows(width: int, height: int, explored: Seq<bool>, obstacle: Seq<bool>, upto: nat, p: Position)
    requires
        0 < width <= usize::MAX,
        0 < height <= usize::MAX,
        upto <= width * height,
        on_map(width, height, p),
    ensures
        frontier_upto(width, height, explored, obstacle, upto).contains(p) <==> flat(width, p) < upto && is_frontier(
            width,
            height,
            explored,
            obstacle,
            flat(width, p),
        ),
        row_by_row(frontier_upto(width, height, explored, obstacle, upto), width),
        forall|i: int|
            0 <= i < frontier_upto(width, height, explored, obstacle, upto).len() ==> 0 <= flat(
                width,
                #[trigger] frontier_upto(width, height, explored, obstacle, upto)[i],
            ) < upto,
    decreases upto,
{
    lemma_flat(width, height, p);
    if upto > 0 {
        let before = frontier_upto(width, height, explored, obstacle, (upto - 1) as nat);
        let all = frontier_upto(width, height, explored, obstacle, upto);
        lemma_frontier_rows(width, height, explored, obstacle, (upto - 1) as nat, p);
        lemma_unflat(width, height, upto - 1);
        if all.contains(p) {
            let k = choose|k: int| 0 <= k < all.len() && all[k] == p;
            if k < before.len() {
                assert(before[k] == p);
                assert(before.contains(p));
            }
        }
        if flat(width, p) < upto && is_frontier(width, height, explored, obstacle, flat(width, p)) {
            if flat(width, p) == upto - 1 {
                assert(all[all.len() - 1] == p);
            } else {
                let k = choose|k: int| 0 <= k < before.len() && before[k] == p;
                assert(all[k] == p);
            }
        }
        assert forall|i: int| 0 <= i < all.len() implies 0 <= flat(width, #[trigger] all[i]) < upto by {
            if i < before.len() {
                assert(all[i] == before[i]);
            }
        }
        assert forall|i: int, j: int| 0 <= i < j < all.len() implies flat(width, #[trigger] all[i]) < flat(
            width,
            #[trigger] all[j],
        ) by {
            assert(all[i] == before[i]);
            if j < before.len() {
                assert(all[j] == before[j]);
            }
        }
    }
}

/// The frontier is made of the cells known to be walkable that have an
/// unexplored cell next to them, all of them, row by row.
pub proof fn law_frontier_borders_the_unknown(c: ScoutView, p: Position)
    requires
        c.wf(),
        c.holds(p),
    ensures
        c.frontier().contains(p) <==> {
            &&& c.explored[flat(c.width as int, p)]
            &&& !c.obstacle[flat(c.width as int, p)]
            &&& exists|q: Position|
                #[trigger] adjacent(p, q) && c.holds(q) && !c.explored[flat(c.width as int, q)]
        },
        row_by_row(c.frontier(), c.width as int),
{
    let w = c.width as int;
    let h = c.height as int;
    lemma_flat(w, h, p);
    lemma_frontier_rows(w, h, c.explored, c.obstacle, (c.width * c.height) as nat, p);
    if borders_unknown(w, h, c.explored, p) {
        let dir = choose|dir: int|
            0 <= dir < 4 && match #[trigger] neighbor_of(w, h, p, dir) {
                Some(q) => !c.explored[flat(w, q)],
                None => false,
            };
        let q = neighbor_of(w, h, p, dir)->0;
        lemma_neighbors(w, h, p, q);
        assert(adjacent(p, q) && c.holds(q));
    }
    if exists|q: Position| #[trigger] adjacent(p, q) && c.holds(q) && !c.explored[flat(w, q)] {
        let q = choose|q: Position| #[trigger] adjacent(p, q) && c.holds(q) && !c.explored[flat(w, q)];
        lemma_neighbors(w, h, p, q);
        let dir = choose|dir: int| 0 <= dir < 4 && #[trigger] neighbor_of(w, h, p, dir) == Some(q);
        assert(neighbor_of(w, h, p, dir) == Some(q));
    }
}

proof fn lemma_filter_rows(s: Seq<Position>, keep: spec_fn(Position) -> bool, width: int)
    requires
        row_by_row(s, width),
    ensures
        row_by_row(s.filter(keep), width),
        s.len() > 0 ==> forall|i: int|
            0 <= i < s.filter(keep).len() ==> flat(width, #[trigger] s.filter(keep)[i]) <= flat(width, s.last()),
    decreases s.len(),
{
    reveal(Seq::filter);
    if s.len() > 0 {
        let front = s.drop_last();
        let last = s.last();
        assert forall|i: int, j: int| 0 <= i < j < front.len() implies flat(width, #[trigger] front[i]) < flat(
            width,
            #[trigger] front[j],
        ) by {
            assert(front[i] == s[i] && front[j] == s[j]);
        }
        lemma_filter_rows(front, keep, width);
        if front.len() > 0 {
            assert(front.last() == s[s.len() - 2] && last == s[s.len() - 1]);
        }
        let kept = s.filter(keep);
        let before = front.filter(keep);
        assert forall|i: int, j: int| 0 <= i < j < kept.len() implies flat(width, #[trigger] kept[i]) < flat(
            width,
            #[trigger] kept[j],
        ) by {
            assert(kept[i] == before[i]);
            if j < before.len() {
                assert(kept[j] == before[j]);
            }
        }
        assert forall|i: int| 0 <= i < kept.len() implies flat(width, #[trigger] kept[i]) <= flat(width, last) by {
            if i < before.len() {
                assert(kept[i] == before[i]);
            }
        }
    }
}

/// The sector's frontier is the part of the frontier that lies in the preferred
/// sector, row by row.
pub proof fn law_sector_is_part_of_the_frontier(c: ScoutView, p: Position)
    requires
        c.wf(),
        c.holds(p),
    ensures
        c.sector().contains(p) <==> c.frontier().contains(p) && c.inside[flat(c.width as int, p)],
        row_by_row(c.sector(), c.width as int),
{
    let keep = |p: Position| c.inside[flat(c.width as int, p)];
    let frontier = c.frontier();
    law_frontier_borders_the_unknown(c, p);
    lemma_filter_rows(frontier, keep, c.width as int);
    if c.sector().contains(p) {
        lemma_filtered(frontier, keep, p);
    }
    if frontier.contains(p) && keep(p) {
        let k = choose|k: int| 0 <= k < frontier.len() && frontier[k] == p;
        frontier.filter_lemma(keep);
        assert(c.sector().contains(frontier[k]));
    }
}

/// The exits are the cells next to the scout that it does not know to be
/// obstacles.
pub proof fn law_exits_are_the_open_neighbors(c: ScoutView, p: Position)
    requires
        c.wf(),
    ensures
        c.exits().contains(p) <==> c.holds(p) && adjacent(c.position, p) && !c.obstacle[flat(c.width as int, p)],
{
    let w = c.width as int;
    let h = c.height as int;
    let cells = cardinal(w, h, c.position);
    let keep = |p: Position| !c.obstacle[flat(c.width as int, p)];
    lemma_cardinal(w, h, c.position, p);
    if c.exits().contains(p) {
        lemma_filtered(cells, keep, p);
    }
    if cells.contains(p) && keep(p) {
        let k = choose|k: int| 0 <= k < cells.len() && cells[k] == p;
        cells.filter_lemma(keep);
        assert(c.exits().contains(cells[k]));
    }
}

/// A look at a cell explores it and no other. What is new there is put into the
/// batch once: an obstacle, or a resource with its kind; plain ground and cells
/// seen before add nothing.
pub proof fn law_a_look_reports_what_is_there(c: ScoutView, world: WorldView, p: Position, q: Position, i: int)
    requires
        world.wf(),
        c.wf(),
        c.knows(world),
        c.holds(p),
        c.holds(q),
    ensures
        ({
            let next = c.observed(world, p);
            let at = flat(c.width as int, p);
            let fresh = !c.explored[at];
            let bare = forall|j: int|
                0 <= j < world.resources.len() ==> (#[trigger] world.resources[j]).position != p;
            &&& next.explored[flat(c.width as int, q)] <==> c.explored[flat(c.width as int, q)] || q == p
            &&& q != p ==> next.obstacle[flat(c.width as int, q)] == c.obstacle[flat(c.width as int, q)]
            &&& next.obstacle[at] == (world.cells[at] == Cell::Obstacle)
            &&& !fresh ==> next == c
            &&& fresh && world.cells[at] == Cell::Obstacle ==> next.batch =~= c.batch.push(
                Discovery::Obstacle { position: p },
            )
            &&& fresh && 0 <= i < world.resources.len() && world.resources[i].position == p ==> next.batch
                =~= c.batch.push(Discovery::Resource { position: p, kind: world.resources[i].kind })
            &&& fresh && world.cells[at] == Cell::Walkable && bare ==> next.batch == c.batch
            &&& fresh ==> next.stats.cells_explored == c.stats.cells_explored + 1
            &&& next.stats.discoveries_total == c.stats.discoveries_total + (next.batch.len() - c.batch.len())
            &&& next.position == c.position && next.goal == c.goal && next.rng == c.rng
        }),
{
    let w = c.width as int;
    let h = c.height as int;
    let at = flat(w, p);
    lemma_flat(w, h, p);
    lemma_flat(w, h, q);
    lemma_observed(c, world, p);
    if q != p && flat(w, q) == at {
        lemma_flat_injective(w, h, q, p);
    }
    if 0 <= i < world.resources.len() && world.resources[i].position == p {
        lemma_node_at(world, i);
        assert(world.placed_well(world.resources[i]));
    }
    if forall|j: int| 0 <= j < world.resources.len() ==> (#[trigger] world.resources[j]).position != p {
        assert forall|j: int| !world.stands_at(j, p) by {}
    }
    assert(c.explored[at] ==> c.obstacle[at] == (world.cells[at] == Cell::Obstacle));
    assert(!c.explored[at] ==> !c.obstacle[at]);
}

/// A scout that strays, or knows of no frontier, takes the exit that its
/// generator draws; without an exit it stays. Straying does not make it forget
/// its goal, having no frontier does.
pub proof fn law_straying_takes_a_drawn_exit(c: ScoutView, stray: bool)
    requires
        c.wf(),
        c.turning is None,
        stray || c.frontier().len() == 0,
    ensures
        ({
            let (step, next) = c.decided_on(stray);
            let (draw, rng) = drawn_below(c.rng, c.exits().len());
            &&& c.exits().len() == 0 ==> step is None && next.rng == c.rng
            &&& c.exits().len() > 0 && draw < c.exits().len() ==> step == Some(c.exits()[draw as int])
            &&& c.exits().len() > 0 ==> next.rng == rng
            &&& stray ==> next.goal == c.goal
            &&& !stray ==> next.goal is None
            &&& next.misses == c.misses && next.turning is None
        }),
{
    lemma_same_exits(c, ScoutView { goal: None, ..c });
}

/// A scout that does not stray and can reach its goal over known ground takes a
/// step that brings it one step closer, and keeps its goal.
pub proof fn law_scout_keeps_to_its_goal(c: ScoutView, goal: Position, steps: nat)
    requires
        c.wf(),
        c.turning is None,
        c.goal == Some(goal),
        c.position != goal,
        shortest(c.known(), c.position, goal, steps),
        c.frontier().len() > 0,
    ensures
        ({
            let (step, next) = c.decided_on(false);
            &&& next == c
            &&& step matches Some(n) && adjacent(c.position, n) && c.known().is_free(n) && shortest(
                c.known(),
                n,
                goal,
                (steps - 1) as nat,
            )
        }),
{
    law_next_step_is_closer(c.known(), c.position, goal, steps);
}

/// The ground that a scout knows to be walkable: explored, and no obstacle.
pub proof fn law_known_ground_is_explored(c: ScoutView, p: Position)
    requires
        c.wf(),
    ensures
        c.known().is_free(p) <==> c.holds(p) && c.explored[flat(c.width as int, p)] && !c.obstacle[flat(
            c.width as int,
            p,
        )],
{
    if c.holds(p) {
        lemma_flat(c.width as int, c.height as int, p);
    }
}

/// What is promising depends on where the scout is, its home and its bearings.
proof fn lemma_best_same(a: ScoutView, b: ScoutView, cells: Seq<Position>)
    requires
        a.position == b.position,
        a.home == b.home,
        a.penalty == b.penalty,
        a.width == b.width,
    ensures
        a.best(cells) == b.best(cells),
    decreases cells.len(),
{
    if cells.len() > 0 {
        lemma_best_same(a, b, cells.drop_last());
    }
}

impl ScoutView {
    /// Whether the scout has set out, as `next`, by the step `step`, for the most
    /// promising of `cells`: closer to it by one step, and with it as its goal.
    /// Where there is no way there it has no goal and strays.
    pub open spec fn sets_out(self, cells: Seq<Position>, step: Option<Position>, next: ScoutView) -> bool {
        let goal = self.best(cells)->0;
        let way = self.position != goal && connected(self.known(), self.position, goal);
        &&& way ==> {
            &&& next.goal == Some(goal)
            &&& next.rng == self.rng
            &&& step matches Some(n) && adjacent(self.position, n) && self.known().is_free(n)
            &&& forall|steps: nat|
                #[trigger] shortest(self.known(), self.position, goal, steps) ==> shortest(
                    self.known(),
                    step->0,
                    goal,
                    (steps - 1) as nat,
                )
        }
        &&& !way ==> {
            let (draw, rng) = drawn_below(self.rng, self.exits().len());
            &&& next.goal is None
            &&& self.exits().len() == 0 ==> step is None && next.rng == self.rng
            &&& self.exits().len() > 0 && draw < self.exits().len() ==> step == Some(self.exits()[draw as int])
            &&& self.exits().len() > 0 ==> next.rng == rng
        }
    }
}

proof fn lemma_sets_out(c: ScoutView, d: ScoutView, cells: Seq<Position>)
    requires
        c.wf(),
        cells.len() > 0,
        d == (ScoutView { misses: d.misses, goal: d.goal, ..c }),
    ensures
        c.sets_out(cells, d.pursued(cells).0, d.pursued(cells).1),
{
    lemma_best_same(c, d, cells);
    law_best_is_most_promising(c, cells);
    lemma_same_exits(c, ScoutView { goal: None, ..d });
    let goal = c.best(cells)->0;
    assert(c.known() == d.known());
    if c.position != goal && connected(c.known(), c.position, goal) {
        let some = choose|some: nat| walk(c.known(), c.position, goal, some);
        let least = lemma_shortest_exists(c.known(), c.position, goal, some);
        law_next_step_is_closer(c.known(), c.position, goal, least);
        assert forall|steps: nat| #[trigger] shortest(c.known(), c.position, goal, steps) implies shortest(
            c.known(),
            next_step(c.known(), c.position, goal)->0,
            goal,
            (steps - 1) as nat,
        ) by {
            law_next_step_is_closer(c.known(), c.position, goal, steps);
        }
    }
}

/// A scout with nowhere to go sets out for the most promising frontier in its
/// sector. Where its sector has none it counts a miss and sets out for the most
/// promising one anywhere, until it has missed two hundred times in a row: then
/// it asks to be turned to that one, and starts to count anew.
pub proof fn law_scout_prefers_its_sector(c: ScoutView)
    requires
        c.wf(),
        c.turning is None,
        c.frontier().len() > 0,
        c.goal matches Some(g) ==> g == c.position || !connected(c.known(), c.position, g),
    ensures
        ({
            let (step, next) = c.decided_on(false);
            &&& c.sector().len() > 0 ==> next.misses == 0 && next.turning is None && c.sets_out(c.sector(), step, next)
            &&& c.sector().len() == 0 && c.misses < 200 ==> next.misses == c.misses + 1 && next.turning is None
                && c.sets_out(c.frontier(), step, next)
            &&& c.sector().len() == 0 && c.misses >= 200 ==> {
                &&& step is None
                &&& next.misses == 0
                &&& next.turning == c.best(c.frontier())
                &&& next.turning is Some
                &&& next.goal == next.turning
                &&& next.rng == c.rng
            }
        }),
{
    law_best_is_most_promising(c, c.frontier());
    if c.sector().len() > 0 {
        lemma_sets_out(c, ScoutView { misses: 0, ..c }, c.sector());
    } else if c.misses < 200 {
        lemma_sets_out(c, ScoutView { misses: (c.misses + 1) as u32, ..c }, c.frontier());
    }
}

/// Deciding leaves alone where the scout is and what it knows, holds and has
/// sent.
pub proof fn law_deciding_changes_intentions_only(c: ScoutView, stray: bool)
    ensures
        ({
            let next = c.decided_on(stray).1;
            &&& next.id == c.id && next.home == c.home && next.position == c.position
            &&& next.explored == c.explored && next.obstacle == c.obstacle && next.batch == c.batch
            &&& next.penalty == c.penalty && next.inside == c.inside
            &&& next.offered == c.offered && next.taken == c.taken && next.stats == c.stats
            &&& next.since_flush == c.since_flush && next.config == c.config
        }),
{
}

/// Whether it strays a scout draws first in a tick, with the configured chance
/// in a million.
pub proof fn law_straying_is_drawn_each_tick(c: ScoutView, world: WorldView, next: ScoutView)
    ensures
        ({
            let (stray, rng) = drawn_chance(c.rng, c.config.random_move_probability, 1_000_000);
            c.ticked(world, next) <==> (ScoutView { rng, ..c }).ticked_on(world, stray, next)
        }),
{
}

/// A tick counts, and leaves the scout who it is. It first looks at all the cells
/// next to it, then decides, and is where it decided to go in the end, having
/// looked there too; a scout that waits to be turned has not moved yet.
pub proof fn law_scout_looks_decides_and_steps(c: ScoutView, world: WorldView, stray: bool, next: ScoutView, q: Position)
    requires
        world.wf(),
        c.wf(),
        c.knows(world),
        c.turning is None,
        c.stats.ticks < u64::MAX,
        c.ticked_on(world, stray, next),
        c.holds(q),
    ensures
        ({
            let alert = c.alert(world);
            let (step, d) = alert.decided_on(stray);
            &&& adjacent(c.position, q) ==> alert.explored[flat(c.width as int, q)]
            &&& adjacent(c.position, q) ==> next.explored[flat(c.width as int, q)]
            &&& alert.explored[flat(c.width as int, q)] ==> c.explored[flat(c.width as int, q)] || adjacent(
                c.position,
                q,
            )
            &&& alert.position == c.position && alert.goal == c.goal && alert.misses == c.misses && alert.rng == c.rng
            &&& alert.penalty == c.penalty && alert.inside == c.inside && alert.home == c.home && alert.offered
                == c.offered
            &&& next.stats.ticks == c.stats.ticks + 1
            &&& next.id == c.id && next.home == c.home && next.config == c.config
            &&& next.width == c.width && next.height == c.height
            &&& next.goal == d.goal && next.misses == d.misses && next.rng == d.rng && next.turning == d.turning
            &&& d.turning is Some ==> next.position == c.position && next.offered == c.offered
            &&& d.turning is None && step is None ==> next.position == c.position
            &&& d.turning is None && step is Some ==> next.position == step->0 && next.explored[flat(
                c.width as int,
                step->0,
            )]
        }),
{
    let w = c.width as int;
    let h = c.height as int;
    let counted = ScoutView { stats: ScoutStats { ticks: (c.stats.ticks + 1) as u64, ..c.stats }, ..c };
    let cells = cardinal(w, h, c.position);
    lemma_alert(c, world);
    lemma_knows_same(c, counted, world);
    assert forall|i: int| 0 <= i < cells.len() implies counted.holds(#[trigger] cells[i]) by {
        assert(cells.contains(cells[i]));
        lemma_cardinal(w, h, c.position, cells[i]);
    }
    lemma_observed_all(counted, world, cells);
    lemma_observed_only(counted, world, cells, q);
    lemma_cardinal(w, h, c.position, q);
    let alert = c.alert(world);
    lemma_flat(w, h, q);
    lemma_decided(alert, stray);
    lemma_decided_keeps(alert, stray);
    let (step, d) = alert.decided_on(stray);
    lemma_knows_same(alert, d, world);
    if d.turning is None {
        if let Some(p) = step {
            let there = ScoutView { position: p, ..d };
            lemma_knows_same(d, there, world);
            lemma_observed(there, world, p);
        }
    }
    assert(adjacent(c.position, q) ==> alert.explored[flat(alert.width as int, q)]);
}

proof fn lemma_observed_only(c: ScoutView, world: WorldView, cells: Seq<Position>, q: Position)
    requires
        world.wf(),
        c.wf(),
        c.knows(world),
        c.holds(q),
        forall|i: int| 0 <= i < cells.len() ==> c.holds(#[trigger] cells[i]),
    ensures
        c.observed_all(world, cells).explored[flat(c.width as int, q)] ==> c.explored[flat(c.width as int, q)]
            || cells.contains(q),
    decreases cells.len(),
{
    if cells.len() > 0 {
        let front = cells.drop_last();
        let before = c.observed_all(world, front);
        assert forall|i: int| 0 <= i < front.len() implies c.holds(#[trigger] front[i]) by {
            assert(front[i] == cells[i]);
        }
        lemma_observed_only(c, world, front, q);
        lemma_observed_all(c, world, front);
        assert(c.holds(cells[cells.len() - 1]));
        law_a_look_reports_what_is_there(before, world, cells.last(), q, 0);
        if front.contains(q) {
            let k = choose|k: int| 0 <= k < front.len() && front[k] == q;
            assert(cells[k] == q);
        }
        assert(cells[cells.len() - 1] == cells.last());
    }
}

/// A scout that has been turned takes on its new bearings, sets out for the most
/// promising frontier anywhere as seen in the new direction, and waits no more.
pub proof fn law_turned_scout_sets_out_anew(
    c: ScoutView,
    world: WorldView,
    penalty: Seq<u8>,
    inside: Seq<bool>,
    next: ScoutView,
)
    requires
        world.wf(),
        c.wf(),
        c.knows(world),
        c.turning is Some,
        c.frontier().len() > 0,
        penalty.len() == world.cells.len(),
        inside.len() == world.cells.len(),
        world.grid().is_free(c.position),
        c.turned(world, penalty, inside, next),
    ensures
        next.penalty == penalty,
        next.inside == inside,
        next.turning is None,
        next.misses == c.misses,
        next.stats.ticks == c.stats.ticks,
        next.id == c.id && next.home == c.home && next.config == c.config,
        ({
            let facing = ScoutView { penalty, inside, turning: None, ..c };
            exists|step: Option<Position>|
                #[trigger] facing.sets_out(c.frontier(), step, next) && next.position == match step {
                    Some(p) => p,
                    None => c.position,
                }
        }),
{
    let facing = ScoutView { penalty, inside, turning: None, ..c };
    assert(facing.wf());
    let step = facing.pursued(c.frontier()).0;
    law_scout_turn_keeps_footing(c, world, penalty, inside, next);
    lemma_sets_out(facing, facing, c.frontier());
    assert(facing.sets_out(c.frontier(), step, next));
}

/// A batch is offered when it is full or its time has come, and not before; an
/// empty one never is. What is offered is the whole batch, under the scout's own
/// number.
pub proof fn law_batches_are_flushed_in_time(c: ScoutView, world: WorldView, step: Option<Position>, next: ScoutView)
    requires
        c.wf(),
        c.mid_tick(),
        c.finished(world, step, next),
    ensures
        ({
            let m = c.moved(world, step);
            let due = c.since_flush + 1 >= c.config.flush_interval || m.batch.len() >= c.config.batch_capacity;
            &&& !due ==> next.offered == c.offered && next.taken == c.taken && next.batch == m.batch
                && next.since_flush == c.since_flush + 1
            &&& due ==> next.since_flush == 0
            &&& due && m.batch.len() == 0 ==> next.offered == c.offered && next.taken == c.taken && next.batch.len()
                == 0
            &&& due && m.batch.len() > 0 ==> {
                &&& next.offered.len() == c.offered.len() + 1
                &&& next.offered.drop_last() =~= c.offered
                &&& next.offered.last().scout_id == c.id
                &&& next.offered.last().discoveries == m.batch
                &&& next.stats.messages_sent + next.stats.messages_dropped == (c.stats.messages_sent
                    + c.stats.messages_dropped + 1)
            }
            &&& next.position == match step {
                Some(p) => p,
                None => c.position,
            }
        }),
{
    let m = c.moved(world, step);
    assert(m.stats.messages_sent == c.stats.messages_sent && m.stats.messages_dropped == c.stats.messages_dropped);
}

/// A flush is counted as sent exactly where the channel took the batch, and the
/// scout keeps no batch that was taken. A batch that it keeps is the one it
/// offered.
pub proof fn law_flush_is_counted_as_it_went(c: ScoutView, next: ScoutView)
    requires
        c.flushed(next),
        c.batch.len() > 0,
        c.stats.messages_sent < u64::MAX,
        c.stats.messages_dropped < u64::MAX,
    ensures
        next.taken.len() == c.taken.len() + 1 ==> next.taken.drop_last() =~= c.taken && next.taken.last()
            == next.offered.last() && next.batch.len() == 0 && next.stats.messages_sent == c.stats.messages_sent + 1
            && next.stats.messages_dropped == c.stats.messages_dropped,
        next.taken.len() != c.taken.len() + 1 ==> next.taken == c.taken && next.stats.messages_dropped
            == c.stats.messages_dropped + 1 && next.stats.messages_sent == c.stats.messages_sent,
        next.batch.len() > 0 ==> next.batch == c.batch,
{
}

/// A new scout stands at its home with nothing explored, nothing to report and
/// nothing sent.
pub proof fn law_blank_scout_knows_nothing(
    id: u16,
    start: Position,
    world: WorldView,
    config: ScoutConfig,
    seed: u64,
    penalty: Seq<u8>,
    inside: Seq<bool>,
    i: int,
)
    requires
        0 <= i < world.width * world.height,
    ensures
        ({
            let c = ScoutView::blank(id, start, world, config, seed, penalty, inside);
            &&& c.id == id && c.position == start && c.home == start && c.config == config
            &&& c.goal is None && c.turning is None && c.misses == 0 && c.since_flush == 0
            &&& c.penalty == penalty && c.inside == inside
            &&& c.rng == seeded_state(seed)
            &&& !c.explored[i] && !c.obstacle[i]
            &&& c.batch.len() == 0 && c.offered.len() == 0 && c.taken.len() == 0
            &&& c.width == world.width && c.height == world.height
        }),
{
}

/// A message that the channel had no room for is counted as dropped, and what it
/// reported is back in the batch, to be offered again. One that was sent, or that
/// nobody will ever read, leaves the batch as it is; only the first counts as
/// sent.
pub proof fn law_full_channel_hands_back(c: ScoutView, message: ScoutMessage)
    requires
        c.stats.messages_sent < u64::MAX,
        c.stats.messages_dropped < u64::MAX,
    ensures
        c.settled_by(SendOutcome::Full(message)).batch == message.discoveries@,
        c.settled_by(SendOutcome::Full(message)).stats.messages_dropped == c.stats.messages_dropped + 1,
        c.settled_by(SendOutcome::Full(message)).stats.messages_sent == c.stats.messages_sent,
        c.settled_by(SendOutcome::Sent).batch == c.batch,
        c.settled_by(SendOutcome::Sent).stats.messages_sent == c.stats.messages_sent + 1,
        c.settled_by(SendOutcome::Sent).stats.messages_dropped == c.stats.messages_dropped,
        c.settled_by(SendOutcome::Closed(message)).batch == c.batch,
        c.settled_by(SendOutcome::Closed(message)).stats.messages_dropped == c.stats.messages_dropped + 1,
        c.settled_by(SendOutcome::Closed(message)).stats.messages_sent == c.stats.messages_sent,
{
}

} // verus!
