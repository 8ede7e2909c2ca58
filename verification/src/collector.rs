//! Collectors: robots that fetch resources and unload them at the base.

use crate::channel::{Outbox, SendOutcome};
use crate::grid::{adjacent, connected, shortest, walk, Grid};
use crate::grid::{lemma_connected_join, lemma_flat, lemma_walk_back, lemma_walk_step};
use crate::nearest::{choices, is_choice, nearest_first, nth_nearest, CHOICES};
use crate::occupancy::{law_detour_is_nearest_vacant, law_resolve_stays_walkable, resolved, OccupancyView};
use crate::rng::{drawn_below, random_below, rng_state, seed_rng, seeded_state};
use crate::search::{is_route, is_shortest_route, lemma_route_is_walk, Pathfinder};
use crate::simulation::{law_taking_one_unit, lemma_stock_index, Simulation, SimulationView};
use crate::world::{Position, ResourceKind, World, WorldView};
use rand::rngs::StdRng;
use tokio::sync::mpsc::Sender;
use vstd::arithmetic::div_mod::{lemma_mod_multiples_vanish, lemma_mul_mod_noop_left};
use vstd::prelude::*;

verus! {

/// A message sent by a collector when it unloads resources at the base.
/// The base processes these to update the global inventory.
#[derive(Debug, Clone, Copy, PartialEq, Eq, Structural)]
pub struct CollectorMessage {
    pub collector_id: u16,
    pub kind: ResourceKind,
    pub amount: u16,
}

#[derive(Debug, Clone, Copy, PartialEq, Eq, Structural)]
pub enum CollectorState {
    Seeking,
    Collecting,
    Returning,
    Unloading,
    Idle,
}

#[derive(Debug, Clone, Copy, PartialEq, Eq, Structural)]
pub struct CollectorConfig {
    pub carry_capacity: u16,
}

impl Default for CollectorConfig {
    fn default() -> (config: Self)
        ensures
            config.carry_capacity == 16,
    {
        CollectorConfig { carry_capacity: 16 }
    }
}

#[derive(Debug, Clone, Copy, PartialEq, Eq, Structural)]
pub struct CollectorStats {
    pub ticks: u64,
    pub moves: u64,
    pub replans: u64,
    pub collected_units: u64,
    pub unloaded_units: u64,
}

impl CollectorStats {
    /// Nothing counted yet.
    pub open spec fn zero() -> CollectorStats {
        CollectorStats { ticks: 0, moves: 0, replans: 0, collected_units: 0, unloaded_units: 0 }
    }
}

impl Default for CollectorStats {
    fn default() -> (stats: Self)
        ensures
            stats == CollectorStats::zero(),
    {
        CollectorStats { ticks: 0, moves: 0, replans: 0, collected_units: 0, unloaded_units: 0 }
    }
}

/// A robot that walks to discovered resources, takes one unit a tick until it
/// is full, and carries the units to the base.
pub struct Collector {
    pub id: u16,
    pub position: Position,
    pub state: CollectorState,
    config: CollectorConfig,
    base: Position,
    target: Option<Position>,
    cargo_kind: Option<ResourceKind>,
    cargo: u16,
    path: Vec<Position>,
    path_next: usize,
    pub stats: CollectorStats,
    /// The channel to the base, for unloading.
    outbox: Outbox<CollectorMessage>,
    /// Per-collector generator, so that collectors do not all pick the same
    /// resource.
    rng: StdRng,
    /// Scratch of the path search, allocated once.
    finder: Pathfinder,
}

/// What a collector holds, as mathematics.
#[verifier::ext_equal]
pub struct CollectorView {
    pub id: u16,
    pub position: Position,
    pub state: CollectorState,
    pub capacity: u16,
    pub base: Position,
    pub target: Option<Position>,
    pub cargo_kind: Option<ResourceKind>,
    pub cargo: u16,
    pub path: Seq<Position>,
    pub path_next: nat,
    pub stats: CollectorStats,
    /// The messages offered to the base, and those that its channel took.
    pub offered: Seq<CollectorMessage>,
    pub taken: Seq<CollectorMessage>,
    pub rng: Seq<u8>,
    pub map_size: nat,
}

/// The units that messages announce, together.
pub open spec fn units(messages: Seq<CollectorMessage>) -> nat
    decreases messages.len(),
{
    if messages.len() == 0 {
        0
    } else {
        units(messages.drop_last()) + messages.last().amount as nat
    }
}

/// The target that a collector at `from` picks among the live ones, and the
/// state of its generator afterwards.
pub open spec fn picked(live: Seq<Position>, from: Position, rng: Seq<u8>) -> (Option<Position>, Seq<u8>) {
    if live.len() == 0 {
        (None, rng)
    } else {
        let (draw, after) = drawn_below(rng, choices(live.len()));
        (Some(nearest_first(live, from)[draw as int]), after)
    }
}

/// The seed of a collector's generator.
pub open spec fn collector_seed(id: u16) -> u64 {
    (id as u64).wrapping_mul(0x9E37_79B9_7F4A_7C15)
}

impl CollectorView {
    /// A collector that waits at the base to start.
    pub open spec fn fresh(id: u16, base: Position, config: CollectorConfig, map_size: nat) -> CollectorView {
        CollectorView {
            id,
            position: base,
            state: CollectorState::Seeking,
            capacity: config.carry_capacity,
            base,
            target: None,
            cargo_kind: None,
            cargo: 0,
            path: Seq::empty(),
            path_next: 0,
            stats: CollectorStats::zero(),
            offered: Seq::empty(),
            taken: Seq::empty(),
            rng: seeded_state(collector_seed(id)),
            map_size,
        }
    }

    /// What is true of every collector.
    pub open spec fn wf(self) -> bool {
        &&& self.path_next <= self.path.len()
        &&& self.cargo <= self.capacity
        &&& self.cargo > 0 ==> self.cargo_kind is Some
        &&& self.stats.moves <= self.stats.ticks
        &&& self.stats.replans <= self.stats.ticks
        &&& self.stats.collected_units <= self.stats.ticks
        &&& self.stats.collected_units == self.stats.unloaded_units + self.cargo
        &&& self.stats.unloaded_units == units(self.offered)
    }

    /// Whether the collector stands on a walkable cell of `world`, and has only
    /// walkable cells ahead.
    pub open spec fn stands_in(self, world: WorldView) -> bool {
        &&& self.map_size >= world.cells.len()
        &&& world.grid().is_free(self.position)
        &&& forall|i: int| self.path_next <= i < self.path.len() ==> world.grid().is_free(#[trigger] self.path[i])
    }

    /// Whether what the collector carries while it collects is of the kind that
    /// its target holds.
    pub open spec fn sorted_for(self, sim: SimulationView) -> bool {
        self.state == CollectorState::Collecting && self.cargo > 0 ==> match self.target {
            Some(t) => sim.stock(t) matches Some(stock) && self.cargo_kind == Some(stock.kind),
            None => false,
        }
    }

    /// One more tick counted.
    pub open spec fn counted(self) -> CollectorView {
        CollectorView {
            stats: CollectorStats { ticks: (self.stats.ticks + 1) as u64, ..self.stats },
            ..self
        }
    }

    /// No path any more.
    pub open spec fn without_path(self) -> CollectorView {
        CollectorView { path: Seq::empty(), path_next: 0, ..self }
    }

    /// Sent home, with what it carries.
    pub open spec fn homeward(self) -> CollectorView {
        CollectorView { state: CollectorState::Returning, target: None, ..self.without_path() }
    }

    /// One step along the path, if any of it is left.
    pub open spec fn stepped(self) -> CollectorView {
        if self.path_next < self.path.len() {
            CollectorView {
                position: self.path[self.path_next as int],
                path_next: self.path_next + 1,
                stats: CollectorStats { moves: (self.stats.moves + 1) as u64, ..self.stats },
                ..self
            }
        } else {
            self
        }
    }

    /// With a new path, one replan more.
    pub open spec fn planned(self, path: Seq<Position>) -> CollectorView {
        CollectorView {
            path,
            path_next: 0,
            stats: CollectorStats { replans: (self.stats.replans + 1) as u64, ..self.stats },
            ..self
        }
    }

    /// With a live target, where the one it had is empty or it had none.
    pub open spec fn retargeted(self, sim: SimulationView) -> CollectorView {
        if self.target matches Some(t) && sim.remaining_at(t) > 0 {
            self
        } else {
            let (target, rng) = picked(sim.live(), self.position, self.rng);
            CollectorView { target, rng, ..self.without_path() }
        }
    }

    /// Whether `next` is the collector after heading for `goal`: one step along
    /// the path it has, or along a new one. Where `goal` cannot be reached it is
    /// `lost`.
    pub open spec fn headed(self, world: WorldView, goal: Position, lost: CollectorView, next: CollectorView) -> bool {
        if self.path_next < self.path.len() {
            next == self.stepped()
        } else if connected(world.grid(), self.position, goal) {
            &&& is_shortest_route(world.grid(), self.position, goal, next.path)
            &&& next == self.planned(next.path).stepped()
        } else {
            next == lost
        }
    }

    /// Whether `next` is the collector after a tick of seeking.
    pub open spec fn sought(self, sim: SimulationView, next: CollectorView) -> bool {
        let c = self.retargeted(sim);
        if self.cargo > 0 {
            next == (CollectorView { state: CollectorState::Returning, ..self })
        } else {
            match c.target {
                None => next == (CollectorView { state: CollectorState::Idle, ..c }),
                Some(t) => if c.position == t {
                    next == (CollectorView { state: CollectorState::Collecting, ..c })
                } else {
                    c.headed(sim.world, t, CollectorView { target: None, ..c.without_path() }, next)
                },
            }
        }
    }

    /// The collector and the simulation after one unit was taken at `t`, if
    /// there was one. A unit of another kind than the cargo is not loaded.
    pub open spec fn loaded(self, sim: SimulationView, t: Position) -> (CollectorView, SimulationView) {
        match sim.stock_index(t) {
            Some(i) => if sim.stocks[i].remaining > 0 {
                let kind = sim.stocks[i].kind;
                if self.cargo == 0 || self.cargo_kind == Some(kind) {
                    (
                        CollectorView {
                            cargo_kind: Some(kind),
                            cargo: (self.cargo + 1) as u16,
                            stats: CollectorStats {
                                collected_units: (self.stats.collected_units + 1) as u64,
                                ..self.stats
                            },
                            ..self
                        },
                        sim.taken_from(i),
                    )
                } else {
                    (self, sim.taken_from(i))
                }
            } else {
                (self, sim)
            },
            None => (self, sim),
        }
    }

    /// The collector and the simulation after a tick of collecting.
    pub open spec fn collected(self, sim: SimulationView) -> (CollectorView, SimulationView) {
        if self.cargo >= self.capacity {
            (self.homeward(), sim)
        } else if self.target == Some(self.position) {
            let (c, after) = self.loaded(sim, self.position);
            if c.cargo >= c.capacity || after.remaining_at(self.position) == 0 {
                (c.homeward(), after)
            } else {
                (c, after)
            }
        } else {
            (CollectorView { state: CollectorState::Seeking, ..self }, sim)
        }
    }

    /// Whether `next` is the collector after a tick of returning.
    pub open spec fn returned(self, world: WorldView, next: CollectorView) -> bool {
        if self.position == self.base {
            next == (CollectorView { state: CollectorState::Unloading, ..self })
        } else {
            self.headed(
                world,
                self.base,
                CollectorView { state: CollectorState::Idle, ..self.without_path() },
                next,
            )
        }
    }

    /// What the collector tells the base when it unloads.
    pub open spec fn announcement(self) -> Option<CollectorMessage> {
        match self.cargo_kind {
            Some(kind) => if self.cargo > 0 {
                Some(CollectorMessage { collector_id: self.id, kind, amount: self.cargo })
            } else {
                None
            },
            None => None,
        }
    }

    /// Whether `next` is the collector after a tick of unloading. The cargo is
    /// gone whether or not the channel took the announcement.
    pub open spec fn emptied(self, next: CollectorView) -> bool {
        match self.announcement() {
            Some(message) => {
                &&& next == (CollectorView {
                    state: CollectorState::Seeking,
                    cargo: 0,
                    cargo_kind: None,
                    stats: CollectorStats {
                        unloaded_units: (self.stats.unloaded_units + self.cargo) as u64,
                        ..self.stats
                    },
                    offered: self.offered.push(message),
                    taken: next.taken,
                    ..self.without_path()
                })
                &&& next.taken == self.taken.push(message) || next.taken == self.taken
            },
            None => next == (CollectorView { state: CollectorState::Seeking, ..self }),
        }
    }

    /// The collector after an idle tick: it wakes up once there is a live
    /// target.
    pub open spec fn waited(self, sim: SimulationView) -> CollectorView {
        let (target, rng) = picked(sim.live(), self.position, self.rng);
        CollectorView {
            rng,
            state: if target is Some {
                CollectorState::Seeking
            } else {
                self.state
            },
            ..self
        }
    }

    /// Whether `next` and `after` are the collector and the simulation after
    /// one tick.
    pub open spec fn ticked(self, sim: SimulationView, next: CollectorView, after: SimulationView) -> bool {
        let c = self.counted();
        match self.state {
            CollectorState::Seeking => c.sought(sim, next) && after == sim,
            CollectorState::Collecting => (next, after) == c.collected(sim),
            CollectorState::Returning => c.returned(sim.world, next) && after == sim,
            CollectorState::Unloading => c.emptied(next) && after == sim,
            CollectorState::Idle => next == c.waited(sim) && after == sim,
        }
    }
}

impl View for Collector {
    type V = CollectorView;

    closed spec fn view(&self) -> CollectorView {
        CollectorView {
            id: self.id,
            position: self.position,
            state: self.state,
            capacity: self.config.carry_capacity,
            base: self.base,
            target: self.target,
            cargo_kind: self.cargo_kind,
            cargo: self.cargo,
            path: self.path@,
            path_next: self.path_next as nat,
            stats: self.stats,
            offered: self.outbox.offered(),
            taken: self.outbox.taken(),
            rng: rng_state(self.rng),
            map_size: self.finder.size(),
        }
    }
}

impl Collector {
    /// The search buffers are of one size.
    pub closed spec fn ready(&self) -> bool {
        self.finder.wf()
    }

    /// What is true of every collector.
    pub open spec fn wf(&self) -> bool {
        self.ready() && self@.wf()
    }

    /// A collector at the base of a map of `map_size` cells, which unloads
    /// through `tx`.
    pub fn new(
        id: u16,
        base: Position,
        config: CollectorConfig,
        map_size: usize,
        tx: Sender<CollectorMessage>,
    ) -> (collector: Self)
        ensures
            collector.wf(),
            collector@ == CollectorView::fresh(id, base, config, map_size as nat),
    {
        Collector {
            id,
            position: base,
            state: CollectorState::Seeking,
            config,
            base,
            target: None,
            cargo_kind: None,
            cargo: 0,
            path: Vec::new(),
            path_next: 0,
            stats: CollectorStats::default(),
            outbox: Outbox::new(tx),
            rng: seed_rng((id as u64).wrapping_mul(0x9E37_79B9_7F4A_7C15)),
            finder: Pathfinder::new(map_size),
        }
    }

    /// Advance the collector by one simulation tick.
    ///
    /// `sim` provides the static world and mutable access to the resource
    /// stocks.
    pub fn tick(&mut self, sim: &mut Simulation)
        requires
            old(self).wf(),
            old(sim).wf(),
            old(self)@.stands_in(old(sim)@.world),
            old(self)@.stats.ticks < u64::MAX,
        ensures
            final(self).wf(),
            final(sim).wf(),
            old(self)@.ticked(old(sim)@, final(self)@, final(sim)@),
            final(self)@.stands_in(final(sim)@.world),
            final(self)@.target matches Some(t) ==> old(self)@.target == Some(t) || {
                &&& old(sim)@.live().contains(t)
                &&& is_choice(old(sim)@.live(), old(self)@.position, t)
            },
    {
        self.stats.ticks += 1;
        match self.state {
            CollectorState::Seeking => self.tick_seeking(sim),
            CollectorState::Collecting => self.tick_collecting(sim),
            CollectorState::Returning => self.tick_returning(sim),
            CollectorState::Unloading => self.tick_unloading(),
            CollectorState::Idle => {
                // Scouts may have discovered new resources: wake up if there
                // are live targets now.
                if self.pick_target(sim).is_some() {
                    self.state = CollectorState::Seeking;
                }
            },
        }
    }

    fn tick_seeking(&mut self, sim: &Simulation)
        requires
            old(self).ready(),
            old(self)@.in_tick(),
            sim.wf(),
            old(self)@.stands_in(sim@.world),
        ensures
            final(self).wf(),
            old(self)@.sought(sim@, final(self)@),
            final(self)@.stands_in(sim@.world),
            final(self)@.target matches Some(t) ==> old(self)@.target == Some(t) || {
                &&& sim@.live().contains(t)
                &&& is_choice(sim@.live(), old(self)@.position, t)
            },
    {
        if self.cargo > 0 {
            self.state = CollectorState::Returning;
            return;
        }
        let need_new_target = match self.target {
            Some(target) => sim.stock_remaining_at(target) == 0,
            None => true,
        };
        if need_new_target {
            self.target = self.pick_target(sim);
            self.path.clear();
            self.path_next = 0;
        }
        let target = match self.target {
            Some(target) => target,
            None => {
                // No live targets left anywhere.
                self.state = CollectorState::Idle;
                return;
            },
        };
        if self.position == target {
            self.state = CollectorState::Collecting;
            return;
        }
        if self.path_next >= self.path.len() {
            if self.plan_path(sim.world(), self.position, target) {
                self.stats.replans += 1;
            } else {
                // Target unreachable: try a different one next tick.
                self.target = None;
                return;
            }
        }
        self.step_along_path();
    }

    fn tick_collecting(&mut self, sim: &mut Simulation)
        requires
            old(self).ready(),
            old(self)@.in_tick(),
            old(sim).wf(),
            old(self)@.stands_in(old(sim)@.world),
        ensures
            final(self).wf(),
            final(sim).wf(),
            (final(self)@, final(sim)@) == old(self)@.collected(old(sim)@),
            final(self)@.stands_in(final(sim)@.world),
    {
        if self.cargo >= self.config.carry_capacity {
            self.head_home();
            return;
        }
        let target = match self.target {
            Some(target) => target,
            None => {
                self.state = CollectorState::Seeking;
                return;
            },
        };
        if self.position != target {
            self.state = CollectorState::Seeking;
            return;
        }
        if let Some(kind) = sim.try_collect(target) {
            if self.cargo == 0 {
                self.cargo_kind = Some(kind);
            }
            if self.cargo_kind == Some(kind) {
                self.cargo += 1;
                self.stats.collected_units += 1;
            }
        }
        assert((self@, sim@) == old(self)@.loaded(old(sim)@, target));
        if self.cargo >= self.config.carry_capacity || sim.stock_remaining_at(target) == 0 {
            self.head_home();
        }
    }

    fn tick_returning(&mut self, sim: &Simulation)
        requires
            old(self).ready(),
            old(self)@.in_tick(),
            sim.wf(),
            old(self)@.stands_in(sim@.world),
        ensures
            final(self).wf(),
            old(self)@.returned(sim@.world, final(self)@),
            final(self)@.stands_in(sim@.world),
    {
        if self.position == self.base {
            self.state = CollectorState::Unloading;
            return;
        }
        if self.path_next >= self.path.len() {
            if self.plan_path(sim.world(), self.position, self.base) {
                self.stats.replans += 1;
            } else {
                self.state = CollectorState::Idle;
                return;
            }
        }
        self.step_along_path();
    }

    fn tick_unloading(&mut self)
        requires
            old(self).ready(),
            old(self)@.in_tick(),
        ensures
            final(self).wf(),
            old(self)@.emptied(final(self)@),
            forall|world: WorldView| old(self)@.stands_in(world) ==> #[trigger] final(self)@.stands_in(world),
    {
        match self.unload_message() {
            Some(message) => {
                proof {
                    assert(self.outbox.offered().push(message).drop_last() =~= self.outbox.offered());
                }
                // Asynchronous and non-blocking: the base may miss it.
                let _outcome: SendOutcome<CollectorMessage> = self.outbox.offer(message);
                self.stats.unloaded_units += self.cargo as u64;
                self.cargo = 0;
                self.cargo_kind = None;
                self.path.clear();
                self.path_next = 0;
            },
            None => {},
        }
        self.state = CollectorState::Seeking;
    }

    /// What the collector tells the base when it unloads.
    pub fn unload_message(&self) -> (message: Option<CollectorMessage>)
        ensures
            message == self@.announcement(),
    {
        match self.cargo_kind {
            Some(kind) => if self.cargo > 0 {
                Some(CollectorMessage { collector_id: self.id, kind, amount: self.cargo })
            } else {
                None
            },
            None => None,
        }
    }

    fn head_home(&mut self)
        ensures
            final(self)@ == old(self)@.homeward(),
            final(self).ready() == old(self).ready(),
    {
        self.state = CollectorState::Returning;
        self.target = None;
        self.path.clear();
        self.path_next = 0;
    }

    fn step_along_path(&mut self)
        requires
            old(self)@.stats.moves < u64::MAX,
        ensures
            final(self)@ == old(self)@.stepped(),
            final(self).ready() == old(self).ready(),
    {
        if self.path_next < self.path.len() {
            self.position = self.path[self.path_next];
            self.path_next += 1;
            self.stats.moves += 1;
        }
    }

    /// A* pathfinding with reusable scratch buffers. Writes a shortest path into
    /// the collector and returns whether the goal is reachable; on failure the
    /// path is empty.
    pub fn plan_path(&mut self, world: &World, start: Position, goal: Position) -> (reachable: bool)
        requires
            old(self).ready(),
            world.wf(),
            start != goal ==> old(self)@.map_size >= world@.cells.len() && world@.holds(start),
        ensures
            final(self).ready(),
            reachable == connected(world@.grid(), start, goal),
            final(self)@ == (CollectorView { path: final(self)@.path, path_next: 0, ..old(self)@ }),
            reachable ==> is_shortest_route(world@.grid(), start, goal, final(self)@.path),
            reachable ==> shortest(world@.grid(), start, goal, final(self)@.path.len()),
            !reachable ==> final(self)@.path == Seq::<Position>::empty(),
    {
        self.path_next = 0;
        match self.finder.plan(world, start, goal) {
            Some(path) => {
                assert(walk(world@.grid(), start, goal, path@.len()));
                self.path = path;
                true
            },
            None => {
                self.path.clear();
                false
            },
        }
    }

    /// Pick a resource target using distance-biased randomness.
    ///
    /// Sorts live targets by distance, then picks uniformly among the nearest
    /// few. This prevents every collector from swarming the single closest
    /// resource while still preferring nearby targets.
    fn pick_target(&mut self, sim: &Simulation) -> (target: Option<Position>)
        requires
            sim.wf(),
        ensures
            (target, final(self)@.rng) == picked(sim@.live(), old(self)@.position, old(self)@.rng),
            final(self)@ == (CollectorView { rng: final(self)@.rng, ..old(self)@ }),
            final(self).ready() == old(self).ready(),
            match target {
                Some(t) => sim@.live().contains(t) && is_choice(sim@.live(), old(self)@.position, t),
                None => sim@.live().len() == 0,
            },
    {
        let targets = sim.live_targets();
        let len = targets.len();
        if len == 0 {
            return None;
        }
        let top = if len < CHOICES {
            len
        } else {
            CHOICES
        };
        let draw = random_below(&mut self.rng, top);
        Some(nth_nearest(&targets, self.position, draw))
    }
}

impl CollectorView {
    /// What is true of a collector once its tick has been counted.
    spec fn in_tick(self) -> bool {
        &&& self.wf()
        &&& self.stats.moves < self.stats.ticks
        &&& self.stats.replans < self.stats.ticks
        &&& self.stats.collected_units < self.stats.ticks
    }
}

/// A route keeps to cells that are connected to where it starts.
proof fn lemma_route_reaches(g: Grid, start: Position, path: Seq<Position>, i: int)
    requires
        is_route(g, start, path),
        0 <= i < path.len(),
    ensures
        connected(g, start, path[i]),
{
    lemma_route_is_walk(g, start, path, i);
}

impl CollectorView {
    /// Whether the base can reach the collector and every cell ahead of it.
    pub open spec fn within_reach(self, world: WorldView) -> bool {
        &&& connected(world.grid(), world.base, self.position)
        &&& forall|i: int|
            self.path_next <= i < self.path.len() ==> connected(world.grid(), world.base, #[trigger] self.path[i])
    }

    /// Whether the path ahead goes on from where the collector stands, step by
    /// step.
    pub open spec fn on_course(self) -> bool {
        forall|i: int|
            self.path_next <= i < self.path.len() ==> adjacent(
                if i == self.path_next {
                    self.position
                } else {
                    self.path[i - 1]
                },
                #[trigger] self.path[i],
            )
    }
}

/// Units are neither made nor lost in a tick: what is left on the map, what
/// the collector carries and what it has announced to the base add up to the
/// same.
pub proof fn law_tick_keeps_units(c: CollectorView, sim: SimulationView, next: CollectorView, after: SimulationView)
    requires
        c.wf(),
        sim.wf(),
        c.stats.ticks < u64::MAX,
        c.sorted_for(sim),
        c.ticked(sim, next, after),
    ensures
        after.total() + next.cargo + units(next.offered) == sim.total() + c.cargo + units(c.offered),
        after.delivered() == sim.delivered(),
        next.sorted_for(after),
{
    match c.state {
        CollectorState::Collecting => {
            if c.cargo < c.capacity && c.target == Some(c.position) {
                if let Some(i) = sim.stock_index(c.position) {
                    assert(sim.stands_at(i, c.position));
                    let stock = sim.stocks[i];
                    if stock.remaining > 0 {
                        law_taking_one_unit(sim, i);
                        assert(sim.stock(c.position) is Some);
                    }
                }
            }
        },
        CollectorState::Unloading => {
            if let Some(message) = c.announcement() {
                assert(c.offered.push(message).drop_last() =~= c.offered);
            }
        },
        _ => {},
    }
}

/// Another collector's tick does not change what kind a target holds.
pub proof fn law_others_stay_sorted(
    other: CollectorView,
    c: CollectorView,
    sim: SimulationView,
    next: CollectorView,
    after: SimulationView,
)
    requires
        sim.wf(),
        other.sorted_for(sim),
        c.ticked(sim, next, after),
    ensures
        other.sorted_for(after),
{
    if c.state == CollectorState::Collecting && c.target == Some(c.position) {
        if let Some(i) = sim.stock_index(c.position) {
            assert(sim.stands_at(i, c.position));
            if sim.stocks[i].remaining > 0 {
                law_taking_one_unit(sim, i);
                if let Some(t) = other.target {
                    assert(sim.stock(t) is Some ==> after.stock(t)->0.kind == sim.stock(t)->0.kind);
                }
            }
        }
    }
}

/// At most one unit is taken in a tick, and never more than fits.
pub proof fn law_one_unit_a_tick(c: CollectorView, sim: SimulationView, next: CollectorView, after: SimulationView)
    requires
        c.wf(),
        sim.wf(),
        c.ticked(sim, next, after),
    ensures
        sim.total() - 1 <= after.total() <= sim.total(),
        next.cargo <= c.cargo + 1,
        next.cargo <= next.capacity,
        next.capacity == c.capacity,
{
    if c.state == CollectorState::Collecting && c.target == Some(c.position) {
        if let Some(i) = sim.stock_index(c.position) {
            assert(sim.stands_at(i, c.position));
            if sim.stocks[i].remaining > 0 {
                law_taking_one_unit(sim, i);
            }
        }
    }
}

/// A collector that is full once it has collected heads home.
pub proof fn law_full_collector_returns(c: CollectorView, sim: SimulationView, next: CollectorView, after: SimulationView)
    requires
        c.state == CollectorState::Collecting,
        c.ticked(sim, next, after),
        next.cargo >= next.capacity,
        c.cargo >= c.capacity || c.target == Some(c.position),
    ensures
        next.state == CollectorState::Returning,
{
}

/// An idle collector wakes up exactly when there is a live target.
pub proof fn law_idle_wakes_for_live_targets(
    c: CollectorView,
    sim: SimulationView,
    next: CollectorView,
    after: SimulationView,
)
    requires
        c.state == CollectorState::Idle,
        c.ticked(sim, next, after),
    ensures
        next.state == if sim.live().len() > 0 {
            CollectorState::Seeking
        } else {
            CollectorState::Idle
        },
{
}

/// Every resource can be walked to from wherever the base can be walked from,
/// and back: no placed resource is out of a collector's reach.
pub proof fn law_resources_are_reachable(world: WorldView, from: Position, i: int)
    requires
        world.wf(),
        world.grid().is_free(from),
        connected(world.grid(), world.base, from),
        0 <= i < world.resources.len(),
    ensures
        connected(world.grid(), from, world.resources[i].position),
        connected(world.grid(), from, world.base),
        connected(world.grid(), world.resources[i].position, world.base),
{
    let g = world.grid();
    let node = world.resources[i];
    assert(world.placed_well(node));
    let m = choose|m: nat| walk(g, world.base, from, m);
    lemma_walk_back(g, world.base, from, m);
    assert(connected(g, from, world.base));
    lemma_connected_join(g, from, world.base, node.position);
    let n = choose|n: nat| walk(g, world.base, node.position, n);
    lemma_walk_back(g, world.base, node.position, n);
}

/// A collector that the base can reach stays within its reach.
pub proof fn law_collector_stays_within_reach(
    c: CollectorView,
    sim: SimulationView,
    next: CollectorView,
    after: SimulationView,
)
    requires
        c.wf(),
        sim.wf(),
        c.within_reach(sim.world),
        c.ticked(sim, next, after),
    ensures
        next.within_reach(after.world),
{
    let g = sim.world.grid();
    let here = c.counted();
    if c.state == CollectorState::Seeking && c.cargo == 0 {
        let d = here.retargeted(sim);
        if let Some(t) = d.target {
            if d.position != t && d.path_next >= d.path.len() && connected(g, d.position, t) {
                lemma_plan_within_reach(sim.world, d.position, t, next.path);
            }
        }
    }
    if c.state == CollectorState::Returning && c.position != c.base && c.path_next >= c.path.len() && connected(
        g,
        c.position,
        c.base,
    ) {
        lemma_plan_within_reach(sim.world, c.position, c.base, next.path);
    }
}

proof fn lemma_plan_within_reach(world: WorldView, start: Position, goal: Position, path: Seq<Position>)
    requires
        connected(world.grid(), world.base, start),
        is_shortest_route(world.grid(), start, goal, path),
    ensures
        forall|i: int| 0 <= i < path.len() ==> connected(world.grid(), world.base, #[trigger] path[i]),
{
    let g = world.grid();
    assert forall|i: int| 0 <= i < path.len() implies connected(g, world.base, #[trigger] path[i]) by {
        lemma_route_reaches(g, start, path, i);
        lemma_connected_join(g, world.base, start, path[i]);
    }
}

/// A collector that is on course moves one cardinal step at most, and stays on
/// course.
pub proof fn law_collector_moves_one_step(
    c: CollectorView,
    sim: SimulationView,
    next: CollectorView,
    after: SimulationView,
)
    requires
        c.wf(),
        c.on_course(),
        c.ticked(sim, next, after),
    ensures
        next.position == c.position || adjacent(c.position, next.position),
        next.on_course(),
{
    let here = c.counted();
    if here.path_next < here.path.len() {
        assert(adjacent(c.position, c.path[c.path_next as int]));
    }
}

/// A collector's tick leaves the collector and the simulation in order: it
/// stands on a walkable cell with walkable cells ahead, and nothing changes but
/// the stock that it takes a unit from.
pub proof fn law_tick_keeps_footing(c: CollectorView, sim: SimulationView, next: CollectorView, after: SimulationView)
    requires
        c.wf(),
        sim.wf(),
        c.stands_in(sim.world),
        c.stats.ticks < u64::MAX,
        c.ticked(sim, next, after),
    ensures
        next.wf(),
        next.stands_in(after.world),
        after.wf(),
        after == (SimulationView { stocks: after.stocks, ..sim }),
{
    match c.state {
        CollectorState::Collecting => {
            if c.cargo < c.capacity && c.target == Some(c.position) {
                if let Some(i) = sim.stock_index(c.position) {
                    assert(sim.stands_at(i, c.position));
                    if sim.stocks[i].remaining > 0 {
                        law_taking_one_unit(sim, i);
                    }
                }
            }
        },
        CollectorState::Unloading => {
            if let Some(message) = c.counted().announcement() {
                assert(c.offered.push(message).drop_last() =~= c.offered);
            }
        },
        _ => {},
    }
}

/// Wherever a collision sends a collector, it stands on a walkable cell with
/// walkable cells ahead.
pub proof fn law_collision_keeps_footing(c: CollectorView, world: WorldView, occ: OccupancyView, old_pos: Position)
    requires
        world.wf(),
        c.stands_in(world),
        world.grid().is_free(old_pos),
    ensures
        (CollectorView { position: resolved(occ, world, old_pos, c.position), ..c }).stands_in(world),
{
    lemma_flat(world.width as int, world.height as int, old_pos);
    lemma_flat(world.width as int, world.height as int, c.position);
    law_resolve_stays_walkable(occ, world, old_pos, c.position);
    lemma_flat(world.width as int, world.height as int, resolved(occ, world, old_pos, c.position));
}

/// A collision in a single step leaves the robot within the base's reach.
pub proof fn law_collision_keeps_reach(world: WorldView, occ: OccupancyView, old_pos: Position, desired: Position)
    requires
        world.wf(),
        world.grid().is_free(old_pos),
        world.grid().is_free(desired),
        old_pos == desired || adjacent(old_pos, desired),
        connected(world.grid(), world.base, old_pos),
    ensures
        connected(world.grid(), world.base, resolved(occ, world, old_pos, desired)),
{
    let g = world.grid();
    let w = world.width as int;
    let h = world.height as int;
    let end = resolved(occ, world, old_pos, desired);
    lemma_flat(w, h, old_pos);
    lemma_flat(w, h, desired);
    law_resolve_stays_walkable(occ, world, old_pos, desired);
    lemma_flat(w, h, end);
    if end != old_pos {
        law_detour_is_nearest_vacant(occ, world, old_pos, desired, end);
        assert(adjacent(old_pos, end));
        let steps = choose|steps: nat| walk(g, world.base, old_pos, steps);
        lemma_walk_step(g, world.base, old_pos, end, steps);
    }
}

/// A collector stays who it is, and every tick is counted.
pub proof fn law_tick_keeps_identity(c: CollectorView, sim: SimulationView, next: CollectorView, after: SimulationView)
    requires
        c.wf(),
        c.stats.ticks < u64::MAX,
        c.ticked(sim, next, after),
    ensures
        next.id == c.id,
        next.capacity == c.capacity,
        next.base == c.base,
        next.map_size == c.map_size,
        next.stats.ticks == c.stats.ticks + 1,
        next.position != c.position ==> next.stats.moves == c.stats.moves + 1,
{
}

/// A collector that unloads announces exactly what it carries, under its own
/// number, and is empty then. The announcement is offered once, and taken once or
/// not at all. Without cargo it announces nothing.
pub proof fn law_unloading_announces_the_cargo(
    c: CollectorView,
    sim: SimulationView,
    next: CollectorView,
    after: SimulationView,
)
    requires
        c.wf(),
        c.stats.ticks < u64::MAX,
        c.state == CollectorState::Unloading,
        c.ticked(sim, next, after),
    ensures
        after == sim,
        next.state == CollectorState::Seeking,
        next.position == c.position,
        next.target == c.target,
        next.cargo == 0,
        next.stats.unloaded_units == c.stats.unloaded_units + c.cargo,
        c.cargo == 0 ==> next.offered == c.offered && next.taken == c.taken,
        c.cargo > 0 ==> {
            &&& next.cargo_kind is None
            &&& next.path.len() == 0
            &&& next.offered.len() == c.offered.len() + 1
            &&& next.offered.drop_last() =~= c.offered
            &&& next.offered.last().collector_id == c.id
            &&& Some(next.offered.last().kind) == c.cargo_kind
            &&& next.offered.last().amount == c.cargo
            &&& next.taken == c.taken || (next.taken.drop_last() =~= c.taken && next.taken.len() == c.taken.len() + 1
                && next.taken.last() == next.offered.last())
        },
{
}

/// Nobody but an unloading collector announces anything or loses cargo.
pub proof fn law_only_unloading_announces(
    c: CollectorView,
    sim: SimulationView,
    next: CollectorView,
    after: SimulationView,
)
    requires
        c.wf(),
        c.stats.ticks < u64::MAX,
        c.state != CollectorState::Unloading,
        c.ticked(sim, next, after),
    ensures
        next.offered == c.offered,
        next.taken == c.taken,
        next.stats.unloaded_units == c.stats.unloaded_units,
        next.cargo >= c.cargo,
        c.cargo > 0 ==> next.cargo_kind == c.cargo_kind,
        c.state != CollectorState::Collecting ==> after == sim && next.cargo == c.cargo && next.cargo_kind
            == c.cargo_kind && next.stats.collected_units == c.stats.collected_units,
{
}

impl CollectorView {
    /// Whether `next` stands one step further on the way to `goal`: on the path
    /// that the collector has, as long as any of it is left, else on a shortest
    /// one.
    pub open spec fn advances(self, world: WorldView, goal: Position, next: CollectorView) -> bool {
        &&& next.stats.moves == self.stats.moves + 1
        &&& self.path_next < self.path.len() ==> {
            &&& next.position == self.path[self.path_next as int]
            &&& next.path == self.path
            &&& next.path_next == self.path_next + 1
            &&& next.stats.replans == self.stats.replans
        }
        &&& self.path_next >= self.path.len() ==> {
            &&& next.path.len() > 0
            &&& next.path.last() == goal
            &&& shortest(world.grid(), self.position, goal, next.path.len())
            &&& is_route(world.grid(), self.position, next.path)
            &&& next.position == next.path[0]
            &&& next.path_next == 1
            &&& next.stats.replans == self.stats.replans + 1
        }
    }

    /// Whether `next` is where the collector is, and has counted no move.
    pub open spec fn rests(self, next: CollectorView) -> bool {
        next.position == self.position && next.stats.moves == self.stats.moves && next.stats.replans
            == self.stats.replans
    }
}

/// A collector keeps its target as long as units are left there: it goes there
/// step by step, and collects once it has arrived. A target that it cannot reach
/// it gives up. One with cargo goes home instead.
pub proof fn law_seeking_collector_goes_to_its_target(
    c: CollectorView,
    sim: SimulationView,
    next: CollectorView,
    after: SimulationView,
    t: Position,
)
    requires
        c.wf(),
        c.stats.ticks < u64::MAX,
        c.state == CollectorState::Seeking,
        c.target == Some(t),
        sim.remaining_at(t) > 0,
        c.ticked(sim, next, after),
    ensures
        c.cargo > 0 ==> next.state == CollectorState::Returning && next.target == c.target && c.rests(next),
        c.cargo == 0 ==> next.rng == c.rng,
        c.cargo == 0 && c.position == t ==> next.state == CollectorState::Collecting && next.target == Some(t)
            && c.rests(next),
        c.cargo == 0 && c.position != t && (c.path_next < c.path.len() || connected(sim.world.grid(), c.position, t))
            ==> next.state == CollectorState::Seeking && next.target == Some(t) && c.advances(sim.world, t, next),
        c.cargo == 0 && c.position != t && c.path_next >= c.path.len() && !connected(sim.world.grid(), c.position, t)
            ==> next.state == CollectorState::Seeking && next.target is None && c.rests(next),
{
}

/// A collector without a target that has units left picks one of the nearest
/// three live ones, by a draw of its own generator, and sets out for it on a
/// shortest way, whatever way it had before; where there is none it goes idle.
pub proof fn law_seeking_collector_picks_a_near_target(
    c: CollectorView,
    sim: SimulationView,
    next: CollectorView,
    after: SimulationView,
)
    requires
        c.wf(),
        c.stats.ticks < u64::MAX,
        c.state == CollectorState::Seeking,
        c.cargo == 0,
        c.target matches Some(t) ==> sim.remaining_at(t) == 0,
        c.ticked(sim, next, after),
    ensures
        sim.live().len() == 0 ==> next.state == CollectorState::Idle && next.target is None && c.rests(next) && next.rng
            == c.rng,
        sim.live().len() > 0 ==> {
            let bound = if sim.live().len() < 3 {
                sim.live().len()
            } else {
                3
            };
            let (draw, rng) = drawn_below(c.rng, bound);
            let t = nearest_first(sim.live(), c.position)[draw as int];
            &&& next.rng == rng
            &&& c.position == t ==> next.state == CollectorState::Collecting && next.target == Some(t) && c.rests(next)
            &&& c.position != t && connected(sim.world.grid(), c.position, t) ==> next.state == CollectorState::Seeking
                && next.target == Some(t) && (CollectorView { path: Seq::empty(), path_next: 0, ..c }).advances(
                sim.world,
                t,
                next,
            )
            &&& c.position != t && !connected(sim.world.grid(), c.position, t) ==> next.state
                == CollectorState::Seeking && next.target is None && c.rests(next)
            &&& next.path_next <= next.path.len()
            &&& c.position == t || !connected(sim.world.grid(), c.position, t) ==> next.path.len() == 0
        },
{
}

/// A collector at its target takes one unit there, as long as it has room and
/// what it carries is of the same kind, and stays until it is full or nothing is
/// left. Away from its target it seeks again.
pub proof fn law_collecting_collector_takes_a_unit(
    c: CollectorView,
    sim: SimulationView,
    next: CollectorView,
    after: SimulationView,
)
    requires
        c.wf(),
        sim.wf(),
        c.stats.ticks < u64::MAX,
        c.state == CollectorState::Collecting,
        c.ticked(sim, next, after),
    ensures
        c.rests(next),
        c.cargo >= c.capacity ==> next.state == CollectorState::Returning && after == sim,
        c.cargo < c.capacity && c.target != Some(c.position) ==> next.state == CollectorState::Seeking && next.target
            == c.target && after == sim,
        next.cargo == c.cargo ==> next.cargo_kind == c.cargo_kind && next.stats.collected_units
            == c.stats.collected_units,
        c.cargo >= c.capacity || c.target != Some(c.position) ==> next.cargo == c.cargo,
        c.cargo < c.capacity && c.target == Some(c.position) ==> {
            &&& sim.stock(c.position) is None || sim.remaining_at(c.position) == 0 ==> next.cargo == c.cargo && after
                == sim
            &&& sim.remaining_at(c.position) > 0 ==> after.remaining_at(c.position) == sim.remaining_at(c.position) - 1
            &&& sim.remaining_at(c.position) > 0 && (c.cargo == 0 || c.cargo_kind == Some(
                sim.stock(c.position)->0.kind,
            )) ==> {
                &&& next.cargo == c.cargo + 1
                &&& next.cargo_kind == Some(sim.stock(c.position)->0.kind)
                &&& next.stats.collected_units == c.stats.collected_units + 1
            }
            &&& next.cargo >= c.capacity || after.remaining_at(c.position) == 0 ==> next.state
                == CollectorState::Returning
            &&& next.cargo < c.capacity && after.remaining_at(c.position) > 0 ==> next.state
                == CollectorState::Collecting && next.target == c.target
        },
        next.state == CollectorState::Returning ==> next.target is None && next.path_next >= next.path.len(),
{
    if c.cargo < c.capacity && c.target == Some(c.position) {
        if let Some(i) = sim.stock_index(c.position) {
            assert(sim.stands_at(i, c.position));
            if sim.stocks[i].remaining > 0 {
                law_taking_one_unit(sim, i);
                lemma_stock_index(sim, i);
                lemma_stock_index(after, i);
            }
        }
    }
}

/// A returning collector goes home step by step, and unloads at the base. Where
/// it cannot get there it waits.
pub proof fn law_returning_collector_goes_home(
    c: CollectorView,
    sim: SimulationView,
    next: CollectorView,
    after: SimulationView,
)
    requires
        c.wf(),
        c.stats.ticks < u64::MAX,
        c.state == CollectorState::Returning,
        c.ticked(sim, next, after),
    ensures
        next.target == c.target,
        c.position == c.base ==> next.state == CollectorState::Unloading && c.rests(next),
        c.position != c.base && (c.path_next < c.path.len() || connected(sim.world.grid(), c.position, c.base))
            ==> next.state == CollectorState::Returning && c.advances(sim.world, c.base, next),
        c.position != c.base && c.path_next >= c.path.len() && !connected(sim.world.grid(), c.position, c.base)
            ==> next.state == CollectorState::Idle && c.rests(next),
{
}

/// An idle collector stays where it is.
pub proof fn law_idle_collector_rests(c: CollectorView, sim: SimulationView, next: CollectorView, after: SimulationView)
    requires
        c.wf(),
        c.stats.ticks < u64::MAX,
        c.state == CollectorState::Idle,
        c.ticked(sim, next, after),
    ensures
        c.rests(next),
        next.target == c.target,
        next.path == c.path && next.path_next == c.path_next,
        sim.live().len() == 0 ==> next.rng == c.rng,
        sim.live().len() > 0 ==> next.rng == drawn_below(
            c.rng,
            if sim.live().len() < 3 {
                sim.live().len()
            } else {
                3
            },
        ).1,
{
}

/// A new collector waits at its base, empty, without a target or a way, and
/// seeks.
pub proof fn law_fresh_collector_seeks_at_the_base(id: u16, base: Position, config: CollectorConfig, map_size: nat)
    ensures
        ({
            let c = CollectorView::fresh(id, base, config, map_size);
            &&& c.wf()
            &&& c.id == id
            &&& c.position == base && c.base == base
            &&& c.state == CollectorState::Seeking
            &&& c.capacity == config.carry_capacity
            &&& c.cargo == 0 && c.target is None && c.path.len() == 0
            &&& c.offered.len() == 0 && c.taken.len() == 0
            &&& c.stats.ticks == 0 && c.stats.moves == 0 && c.stats.replans == 0
            &&& c.map_size == map_size
        }),
{
}

/// No two collectors have the same seed, so that they do not all draw alike.
pub proof fn law_collectors_draw_apart(a: u16, b: u16)
    requires
        a != b,
    ensures
        collector_seed(a) != collector_seed(b),
{
    lemma_seed_gives_the_number_back(a);
    lemma_seed_gives_the_number_back(b);
}

/// The factor of the seeds is odd, hence can be divided out again.
proof fn lemma_seed_gives_the_number_back(id: u16)
    ensures
        (collector_seed(id) as int * 0xf1de83e19937733d) % 0x1_0000_0000_0000_0000 == id,
{
    let modulus: int = 0x1_0000_0000_0000_0000;
    let factor: int = 0x9E37_79B9_7F4A_7C15;
    let inverse: int = 0xf1de83e19937733d;
    let times: int = 10771413168148108919;
    let n = id as int;
    assert(factor * inverse == 1 + times * modulus);
    assert(collector_seed(id) as int == (n * factor) % modulus);
    lemma_mul_mod_noop_left(n * factor, inverse, modulus);
    assert((n * factor) * inverse == n * (factor * inverse)) by (nonlinear_arith);
    assert(n * (1 + times * modulus) == modulus * (n * times) + n) by (nonlinear_arith);
    lemma_mod_multiples_vanish(n * times, n, modulus);
}

} // verus!
