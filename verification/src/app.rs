//! The driver's view of a run: where the robots are, what is known at the base,
//! and what is drawn.

use crate::collector::{units, CollectorMessage};
use crate::grid::{adjacent, flat, flat_index, lemma_flat, lemma_flat_injective, on_map, unflat};
use crate::ledger::units_of;
use crate::map::{MapPreset, ThemeView, VisualTheme};
use crate::occupancy::{apart, law_other_cells_unchanged, OccupancyGrid, OccupancyView};
use crate::scout::{Discovery, ScoutMessage};
use crate::simulation::{lemma_fresh_total, lemma_quantity_bound, sum_quantity, sum_remaining};
use crate::simulation::{law_resource_report_shows_its_cross, law_seen_cell_is_revealed};
use crate::simulation::{law_fog_only_lifts, BaseInventory, ResourceStock, RevealMode, Simulation, SimulationView};
use crate::tally::{count_set, count_true, lemma_count_bound, lemma_count_none};
use crate::world::{generated, law_resources_fit_the_map, BiomeId, ConfigError, Position, ResourceNode, World, WorldView};
use crate::world::{ResourceKind, MAX_QUANTITY, MIN_QUANTITY};
use vstd::prelude::*;

verus! {

/// How many robots of each kind run. Scouts have the numbers from zero,
/// collectors the numbers after them.
pub const NUM_SCOUTS: u16 = 4;

pub const NUM_COLLECTORS: u16 = 3;

/// Read-only simulation metrics for tests and diagnostics.
#[derive(Debug, Clone, Copy, PartialEq, Eq, Structural)]
pub struct SimMetrics {
    pub tick: u64,
    pub energy: u64,
    pub crystals: u64,
    pub remaining: u64,
    pub initial_total: u64,
    pub revealed_cells: usize,
    pub discovered_resources: usize,
}

impl SimMetrics {
    /// The units at the base.
    pub fn collected(&self) -> (total: u64)
        requires
            self.energy + self.crystals <= u64::MAX,
        ensures
            total == self.energy + self.crystals,
    {
        self.energy + self.crystals
    }

    /// Whether nothing is left on the map.
    pub fn is_complete(&self) -> (complete: bool)
        ensures
            complete == (self.remaining == 0),
    {
        self.remaining == 0
    }
}

/// Which type of robot occupies a cell (for lookup while rendering).
#[derive(Debug, Clone, Copy, PartialEq, Eq, Structural)]
pub enum RobotKind {
    Scout,
    Collector,
}

/// Whether robots run at all in a reveal mode: not where everything is shown
/// from the start.
pub fn spawns_robots(mode: RevealMode) -> (spawns: bool)
    ensures
        spawns == (mode != RevealMode::Full),
{
    mode != RevealMode::Full
}

/// Where a run on the terminal stands.
#[derive(Debug, Clone, Copy, PartialEq, Eq, Structural)]
pub enum Phase {
    /// Ticks go on.
    Running,
    /// The mission is complete, and its last picture stays.
    Complete,
    /// The program ends.
    Over,
}

/// What the keyboard brought while a picture was shown.
#[derive(Debug, Clone, Copy, PartialEq, Eq, Structural)]
pub enum Input {
    Key,
    Other,
    Nothing,
}

impl Phase {
    /// The phase that follows, where the mission is complete or not and the
    /// keyboard brought something or not.
    pub open spec fn followed(self, complete: bool, input: Input) -> Phase {
        match self {
            Phase::Running => if complete {
                Phase::Complete
            } else if input == Input::Key {
                Phase::Over
            } else {
                Phase::Running
            },
            Phase::Complete => if input == Input::Key {
                Phase::Over
            } else {
                Phase::Complete
            },
            Phase::Over => Phase::Over,
        }
    }

    /// The phase after a picture was shown: a key ends the program, but the
    /// last picture of a complete mission is shown until a key comes after it.
    pub fn after(&self, complete: bool, input: Input) -> (next: Phase)
        ensures
            next == match *self {
                Phase::Running => if complete {
                    Phase::Complete
                } else if input == Input::Key {
                    Phase::Over
                } else {
                    Phase::Running
                },
                Phase::Complete => if input == Input::Key {
                    Phase::Over
                } else {
                    Phase::Complete
                },
                Phase::Over => Phase::Over,
            },
            next == self.followed(complete, input),
    {
        match self {
            Phase::Running => if complete {
                Phase::Complete
            } else if input == Input::Key {
                Phase::Over
            } else {
                Phase::Running
            },
            Phase::Complete => if input == Input::Key {
                Phase::Over
            } else {
                Phase::Complete
            },
            Phase::Over => Phase::Over,
        }
    }
}

/// Where the robots are.
#[verifier::ext_equal]
pub struct Fleet {
    pub scouts: Seq<Position>,
    pub collectors: Seq<Position>,
}

impl Fleet {
    /// Every robot at one place.
    pub open spec fn at(place: Position) -> Fleet {
        Fleet {
            scouts: Seq::new(NUM_SCOUTS as nat, |i: int| place),
            collectors: Seq::new(NUM_COLLECTORS as nat, |i: int| place),
        }
    }

    /// All positions, scouts first.
    pub open spec fn all(self) -> Seq<Position> {
        self.scouts + self.collectors
    }

    /// The fleet after robot `id` reported a position. A number that no robot
    /// has is ignored.
    pub open spec fn moved(self, id: u16, position: Position) -> Fleet {
        if id < NUM_SCOUTS {
            Fleet { scouts: self.scouts.update(id as int, position), ..self }
        } else if id - NUM_SCOUTS < self.collectors.len() {
            Fleet { collectors: self.collectors.update(id - NUM_SCOUTS, position), ..self }
        } else {
            self
        }
    }

    /// The fleet after several reports, in order.
    pub open spec fn moved_all(self, moves: Seq<(u16, Position)>) -> Fleet
        decreases moves.len(),
    {
        if moves.len() == 0 {
            self
        } else {
            self.moved_all(moves.drop_last()).moved(moves.last().0, moves.last().1)
        }
    }
}

/// The map of robots with `kind` written at each of the positions; one off the
/// map is left out.
pub open spec fn stamped(
    robots: Seq<Option<RobotKind>>,
    width: int,
    height: int,
    positions: Seq<Position>,
    kind: Option<RobotKind>,
) -> Seq<Option<RobotKind>>
    decreases positions.len(),
{
    if positions.len() == 0 {
        robots
    } else {
        let before = stamped(robots, width, height, positions.drop_last(), kind);
        if on_map(width, height, positions.last()) {
            before.update(flat(width, positions.last()), kind)
        } else {
            before
        }
    }
}

/// The grid with each of the positions reserved, as far as it is free.
pub open spec fn reserved_all(occ: OccupancyView, positions: Seq<Position>) -> OccupancyView
    decreases positions.len(),
{
    if positions.len() == 0 {
        occ
    } else {
        let before = reserved_all(occ, positions.drop_last());
        if before.taken(positions.last()) {
            before
        } else {
            before.marked(positions.last(), true)
        }
    }
}

/// The simulation after the base has heard of discoveries.
pub open spec fn noted_all(sim: SimulationView, discoveries: Seq<Discovery>) -> SimulationView
    decreases discoveries.len(),
{
    if discoveries.len() == 0 {
        sim
    } else {
        let before = noted_all(sim, discoveries.drop_last());
        match discoveries.last() {
            Discovery::Resource { position, .. } => before.with_resource_seen(position),
            Discovery::Obstacle { position } => before.with_cell_seen(position),
        }
    }
}

/// The simulation after the base has read messages of scouts.
pub open spec fn heard_all(sim: SimulationView, messages: Seq<ScoutMessage>) -> SimulationView
    decreases messages.len(),
{
    if messages.len() == 0 {
        sim
    } else {
        noted_all(heard_all(sim, messages.drop_last()), messages.last().discoveries@)
    }
}

/// The simulation after the base has stored what collectors unloaded.
pub open spec fn stored_all(sim: SimulationView, messages: Seq<CollectorMessage>) -> SimulationView
    decreases messages.len(),
{
    if messages.len() == 0 {
        sim
    } else {
        stored_all(sim, messages.drop_last()).unloaded(messages.last().kind, messages.last().amount)
    }
}

/// The simulation after robots have stood at positions.
pub open spec fn walked_all(sim: SimulationView, positions: Seq<Position>) -> SimulationView
    decreases positions.len(),
{
    if positions.len() == 0 {
        sim
    } else {
        walked_all(sim, positions.drop_last()).with_cell_seen(positions.last())
    }
}

/// The simulation after the base's part of a tick.
pub open spec fn base_tick(
    sim: SimulationView,
    reports: Seq<ScoutMessage>,
    unloads: Seq<CollectorMessage>,
    fleet: Fleet,
) -> SimulationView {
    walked_all(stored_all(heard_all(sim, reports), unloads), fleet.all())
}

/// The run as the main thread sees it. What is drawn comes from copies that are
/// refreshed between ticks, so that drawing needs no lock.
pub struct App {
    sim_world: World,
    visual_theme: VisualTheme,
    scout_positions: Vec<Position>,
    collector_positions: Vec<Position>,
    /// The robot in each cell.
    robot_at: Vec<Option<RobotKind>>,
    revealed_cache: Vec<bool>,
    cached_energy: u64,
    cached_crystals: u64,
    cached_remaining: u64,
    stock_at_cache: Vec<Option<usize>>,
    stock_remaining_cache: Vec<u16>,
    stock_initial_cache: Vec<u16>,
    resource_discovered_cache: Vec<bool>,
    cached_initial_total: u64,
    tick: u64,
}

/// What the main thread knows, as mathematics.
#[verifier::ext_equal]
pub struct AppView {
    pub world: WorldView,
    pub theme: ThemeView,
    pub fleet: Fleet,
    pub robots: Seq<Option<RobotKind>>,
    pub revealed: Seq<bool>,
    pub inventory: BaseInventory,
    pub remaining: u64,
    pub stock_at: Seq<Option<usize>>,
    pub stock_remaining: Seq<u16>,
    pub stock_initial: Seq<u16>,
    pub discovered: Seq<bool>,
    pub initial_total: u64,
    pub tick: u64,
}

/// A lock-free view of a run, for rendering.
#[derive(Clone, Copy)]
pub struct AppSnapshot<'a> {
    pub sim_world: &'a World,
    pub visual_theme: &'a VisualTheme,
    pub robot_at: &'a [Option<RobotKind>],
    pub revealed_cache: &'a [bool],
    pub cached_energy: u64,
    pub cached_crystals: u64,
    pub cached_remaining: u64,
    pub stock_at_cache: &'a [Option<usize>],
    pub stock_remaining_cache: &'a [u16],
    pub stock_initial_cache: &'a [u16],
    pub resource_discovered_cache: &'a [bool],
    pub cached_initial_total: u64,
    pub tick: u64,
    pub num_scouts: u16,
    pub num_collectors: u16,
}

impl AppView {
    /// What is true of every run.
    pub open spec fn wf(self) -> bool {
        &&& self.world.wf()
        &&& self.fleet.scouts.len() == NUM_SCOUTS
        &&& self.fleet.collectors.len() == NUM_COLLECTORS
        &&& self.robots.len() == self.world.cells.len()
        &&& self.revealed.len() == self.world.cells.len()
        &&& self.stock_at.len() == self.world.cells.len()
        &&& self.stock_remaining.len() == self.world.resources.len()
        &&& self.stock_initial.len() == self.world.resources.len()
        &&& self.discovered.len() == self.world.resources.len()
        &&& self.initial_total == sum_quantity(self.world.resources)
        &&& self.remaining <= self.initial_total
        &&& forall|c: int|
            0 <= c < self.stock_at.len() ==> match #[trigger] self.stock_at[c] {
                Some(i) => i < self.world.resources.len(),
                None => true,
            }
    }

    /// A run that has not ticked yet: every robot at the base, and nothing
    /// copied from the simulation.
    pub open spec fn booted(world: WorldView, theme: ThemeView) -> AppView {
        AppView {
            world,
            theme,
            fleet: Fleet::at(world.base),
            robots: Seq::new(world.cells.len(), |i: int| None),
            revealed: Seq::new(world.cells.len(), |i: int| false),
            inventory: BaseInventory { energy: 0, crystals: 0 },
            remaining: sum_quantity(world.resources) as u64,
            stock_at: Seq::new(world.cells.len(), |i: int| None),
            stock_remaining: Seq::new(world.resources.len(), |i: int| 0u16),
            stock_initial: Seq::new(world.resources.len(), |i: int| 0u16),
            discovered: Seq::new(world.resources.len(), |i: int| false),
            initial_total: sum_quantity(world.resources) as u64,
            tick: 0,
        }
    }

    /// The run after a tick in which robots reported `moves` and the simulation
    /// came to be `sim`.
    pub open spec fn stepped(self, moves: Seq<(u16, Position)>, sim: SimulationView) -> AppView {
        let width = self.world.width as int;
        let fleet = self.fleet.moved_all(moves);
        let height = self.world.height as int;
        let left = stamped(
            stamped(self.robots, width, height, self.fleet.scouts, None),
            width,
            height,
            self.fleet.collectors,
            None,
        );
        AppView {
            fleet,
            robots: stamped(
                stamped(left, width, height, fleet.scouts, Some(RobotKind::Scout)),
                width,
                height,
                fleet.collectors,
                Some(RobotKind::Collector),
            ),
            revealed: sim.revealed,
            inventory: sim.inventory,
            remaining: sim.total() as u64,
            stock_at: sim.table(),
            stock_remaining: Seq::new(sim.stocks.len(), |i: int| sim.stocks[i].remaining),
            stock_initial: Seq::new(sim.stocks.len(), |i: int| sim.stocks[i].initial),
            discovered: sim.discovered,
            tick: (self.tick + 1) as u64,
            ..self
        }
    }

    /// The run and the simulation after a tick of the base, in which it read
    /// these messages.
    pub open spec fn worked(
        self,
        sim: SimulationView,
        moves: Seq<(u16, Position)>,
        reports: Seq<ScoutMessage>,
        unloads: Seq<CollectorMessage>,
    ) -> (AppView, SimulationView) {
        let after = base_tick(sim, reports, unloads, self.fleet.moved_all(moves));
        (self.stepped(moves, after), after)
    }

    /// The reservations before the robots move: their cells and no others.
    pub open spec fn reservations(self, occ: OccupancyView) -> OccupancyView {
        reserved_all(
            OccupancyView { occupied: Seq::new(occ.occupied.len(), |i: int| false), ..occ },
            self.fleet.all(),
        )
    }

    /// The metrics of the run.
    pub open spec fn measured(self) -> SimMetrics {
        SimMetrics {
            tick: self.tick,
            energy: self.inventory.energy,
            crystals: self.inventory.crystals,
            remaining: self.remaining,
            initial_total: self.initial_total,
            revealed_cells: count_true(self.revealed) as usize,
            discovered_resources: count_true(self.discovered) as usize,
        }
    }
}

impl View for App {
    type V = AppView;

    closed spec fn view(&self) -> AppView {
        AppView {
            world: self.sim_world@,
            theme: self.visual_theme@,
            fleet: Fleet { scouts: self.scout_positions@, collectors: self.collector_positions@ },
            robots: self.robot_at@,
            revealed: self.revealed_cache@,
            inventory: BaseInventory { energy: self.cached_energy, crystals: self.cached_crystals },
            remaining: self.cached_remaining,
            stock_at: self.stock_at_cache@,
            stock_remaining: self.stock_remaining_cache@,
            stock_initial: self.stock_initial_cache@,
            discovered: self.resource_discovered_cache@,
            initial_total: self.cached_initial_total,
            tick: self.tick,
        }
    }
}

/// The entries of a slice, as a vector.
fn copied<T: Copy>(items: &[T]) -> (copy: Vec<T>)
    ensures
        copy@ == items@,
{
    let mut copy: Vec<T> = Vec::with_capacity(items.len());
    for i in 0..items.len()
        invariant
            copy@ == items@.take(i as int),
    {
        copy.push(items[i]);
        assert(copy@ =~= items@.take(i + 1));
    }
    assert(items@.take(items@.len() as int) =~= items@);
    copy
}

/// Writes `kind` at each of the positions on the map.
fn stamp(
    robots: &mut Vec<Option<RobotKind>>,
    width: usize,
    height: usize,
    positions: &Vec<Position>,
    kind: Option<RobotKind>,
)
    requires
        old(robots)@.len() == width * height,
    ensures
        final(robots)@ == stamped(old(robots)@, width as int, height as int, positions@, kind),
        final(robots)@.len() == old(robots)@.len(),
{
    let len = robots.len();
    for i in 0..positions.len()
        invariant
            robots@ == stamped(old(robots)@, width as int, height as int, positions@.take(i as int), kind),
            robots@.len() == width * height,
            len == width * height,
    {
        assert(positions@.take(i + 1).drop_last() =~= positions@.take(i as int));
        let p = positions[i];
        if p.x < width && p.y < height {
            robots[flat_index(width, height, p)] = kind;
        }
    }
    assert(positions@.take(positions@.len() as int) =~= positions@);
}

/// Reserves each of the positions, as far as it is free.
fn reserve(occupancy: &mut OccupancyGrid, positions: &Vec<Position>)
    requires
        old(occupancy)@.wf(),
    ensures
        final(occupancy)@.wf(),
        final(occupancy)@ == reserved_all(old(occupancy)@, positions@),
{
    for i in 0..positions.len()
        invariant
            occupancy@.wf(),
            occupancy@ == reserved_all(old(occupancy)@, positions@.take(i as int)),
    {
        assert(positions@.take(i + 1).drop_last() =~= positions@.take(i as int));
        occupancy.try_reserve(positions[i]);
    }
    assert(positions@.take(positions@.len() as int) =~= positions@);
}

/// Notes discoveries at the base.
pub fn note_discoveries(sim: &mut Simulation, discoveries: &Vec<Discovery>)
    requires
        old(sim).wf(),
    ensures
        final(sim).wf(),
        final(sim)@ == noted_all(old(sim)@, discoveries@),
{
    for i in 0..discoveries.len()
        invariant
            sim.wf(),
            sim@ == noted_all(old(sim)@, discoveries@.take(i as int)),
    {
        assert(discoveries@.take(i + 1).drop_last() =~= discoveries@.take(i as int));
        match discoveries[i] {
            Discovery::Resource { position, .. } => sim.mark_resource_discovered(position),
            Discovery::Obstacle { position } => sim.mark_obstacle_discovered(position),
        }
    }
    assert(discoveries@.take(discoveries@.len() as int) =~= discoveries@);
}

/// Reads messages of scouts at the base.
pub fn hear_reports(sim: &mut Simulation, messages: &Vec<ScoutMessage>)
    requires
        old(sim).wf(),
    ensures
        final(sim).wf(),
        final(sim)@ == heard_all(old(sim)@, messages@),
{
    for i in 0..messages.len()
        invariant
            sim.wf(),
            sim@ == heard_all(old(sim)@, messages@.take(i as int)),
    {
        assert(messages@.take(i + 1).drop_last() =~= messages@.take(i as int));
        note_discoveries(sim, &messages[i].discoveries);
    }
    assert(messages@.take(messages@.len() as int) =~= messages@);
}

/// Stores at the base what collectors unloaded.
pub fn store_unloads(sim: &mut Simulation, messages: &Vec<CollectorMessage>)
    requires
        old(sim).wf(),
        old(sim)@.inventory.energy + units(messages@) <= u64::MAX,
        old(sim)@.inventory.crystals + units(messages@) <= u64::MAX,
    ensures
        final(sim).wf(),
        final(sim)@ == stored_all(old(sim)@, messages@),
{
    for i in 0..messages.len()
        invariant
            sim.wf(),
            sim@ == stored_all(old(sim)@, messages@.take(i as int)),
            old(sim)@.inventory.energy + units(messages@) <= u64::MAX,
            old(sim)@.inventory.crystals + units(messages@) <= u64::MAX,
            sim@.inventory.energy <= old(sim)@.inventory.energy + units(messages@.take(i as int)),
            sim@.inventory.crystals <= old(sim)@.inventory.crystals + units(messages@.take(i as int)),
    {
        proof {
            assert(messages@.take(i + 1).drop_last() =~= messages@.take(i as int));
            lemma_units_take(messages@, i + 1);
        }
        sim.unload(messages[i].kind, messages[i].amount);
    }
    assert(messages@.take(messages@.len() as int) =~= messages@);
}

/// Reveals the cells where robots stand.
fn reveal_positions(sim: &mut Simulation, positions: &Vec<Position>)
    requires
        old(sim).wf(),
    ensures
        final(sim).wf(),
        final(sim)@ == walked_all(old(sim)@, positions@),
{
    for i in 0..positions.len()
        invariant
            sim.wf(),
            sim@ == walked_all(old(sim)@, positions@.take(i as int)),
    {
        assert(positions@.take(i + 1).drop_last() =~= positions@.take(i as int));
        sim.reveal_cell(positions[i]);
    }
    assert(positions@.take(positions@.len() as int) =~= positions@);
}

proof fn lemma_units_take(messages: Seq<CollectorMessage>, k: int)
    requires
        0 <= k <= messages.len(),
    ensures
        units(messages.take(k)) <= units(messages),
    decreases messages.len(),
{
    if k < messages.len() {
        assert(messages.drop_last().take(k) =~= messages.take(k));
        lemma_units_take(messages.drop_last(), k);
    } else {
        assert(messages.take(k) =~= messages);
    }
}

proof fn lemma_walked_append(sim: SimulationView, a: Seq<Position>, b: Seq<Position>)
    ensures
        walked_all(walked_all(sim, a), b) == walked_all(sim, a + b),
    decreases b.len(),
{
    if b.len() == 0 {
        assert(a + b =~= a);
    } else {
        lemma_walked_append(sim, a, b.drop_last());
        assert((a + b).drop_last() =~= a + b.drop_last());
    }
}

proof fn lemma_reserved_append(occ: OccupancyView, a: Seq<Position>, b: Seq<Position>)
    ensures
        reserved_all(reserved_all(occ, a), b) == reserved_all(occ, a + b),
    decreases b.len(),
{
    if b.len() == 0 {
        assert(a + b =~= a);
    } else {
        lemma_reserved_append(occ, a, b.drop_last());
        assert((a + b).drop_last() =~= a + b.drop_last());
    }
}

/// After the robots' cells have been reserved on an empty grid, robots that
/// stand on different cells of the map, or at the base, keep apart.
pub proof fn law_reserving_keeps_robots_apart(occ: OccupancyView, positions: Seq<Position>)
    requires
        occ.wf(),
        forall|i: int| 0 <= i < positions.len() ==> occ.holds(#[trigger] positions[i]),
        forall|i: int, j: int|
            0 <= i < j < positions.len() && #[trigger] positions[i] == #[trigger] positions[j] ==> positions[i] == occ.base,
    ensures
        apart(reserved_all(occ, positions), positions),
        reserved_all(occ, positions).wf(),
        reserved_all(occ, positions).base == occ.base,
    decreases positions.len(),
{
    if positions.len() > 0 {
        let front = positions.drop_last();
        assert forall|i: int| 0 <= i < front.len() implies occ.holds(#[trigger] front[i]) by {
            assert(front[i] == positions[i]);
        }
        assert forall|i: int, j: int| 0 <= i < j < front.len() && #[trigger] front[i] == #[trigger] front[j] implies front[i]
            == occ.base by {
            assert(front[i] == positions[i] && front[j] == positions[j]);
        }
        law_reserving_keeps_robots_apart(occ, front);
        let before = reserved_all(occ, front);
        let last = positions.last();
        let after = reserved_all(occ, positions);
        lemma_reserved_size(occ, front);
        assert(occ.holds(positions[positions.len() - 1]));
        lemma_flat(before.width as int, before.height as int, last);
        assert forall|i: int| 0 <= i < positions.len() implies after.holds(#[trigger] positions[i]) && (positions[i]
            == after.base || after.taken(positions[i])) by {
            if i < front.len() {
                assert(front[i] == positions[i]);
                if positions[i] != last {
                    law_other_cells_unchanged(before, last, positions[i], true);
                }
            }
        }
    }
}

proof fn lemma_reserved_size(occ: OccupancyView, positions: Seq<Position>)
    ensures
        reserved_all(occ, positions).width == occ.width,
        reserved_all(occ, positions).height == occ.height,
        reserved_all(occ, positions).base == occ.base,
        occ.wf() ==> reserved_all(occ, positions).wf(),
    decreases positions.len(),
{
    if positions.len() > 0 {
        lemma_reserved_size(occ, positions.drop_last());
        if occ.holds(positions.last()) {
            lemma_flat(occ.width as int, occ.height as int, positions.last());
        }
    }
}

/// Reading reports changes what is visible, nothing else.
proof fn lemma_noted_keeps(sim: SimulationView, discoveries: Seq<Discovery>)
    requires
        sim.wf(),
    ensures
        noted_all(sim, discoveries).wf(),
        noted_all(sim, discoveries).world == sim.world,
        noted_all(sim, discoveries).stocks == sim.stocks,
        noted_all(sim, discoveries).inventory == sim.inventory,
        sim.shown_in(noted_all(sim, discoveries)),
    decreases discoveries.len(),
{
    if discoveries.len() > 0 {
        lemma_noted_keeps(sim, discoveries.drop_last());
        let before = noted_all(sim, discoveries.drop_last());
        let p = match discoveries.last() {
            Discovery::Resource { position, .. } => position,
            Discovery::Obstacle { position } => position,
        };
        law_fog_only_lifts(before, p);
        lemma_seen_keeps_stocks(before, p);
    }
}

proof fn lemma_seen_keeps_stocks(sim: SimulationView, p: Position)
    requires
        sim.wf(),
    ensures
        sim.with_resource_seen(p).wf(),
        sim.with_cell_seen(p).wf(),
{
    if sim.world.holds(p) {
        lemma_flat(sim.world.width as int, sim.world.height as int, p);
    }
}

proof fn lemma_heard_keeps(sim: SimulationView, messages: Seq<ScoutMessage>)
    requires
        sim.wf(),
    ensures
        heard_all(sim, messages).wf(),
        heard_all(sim, messages).world == sim.world,
        heard_all(sim, messages).stocks == sim.stocks,
        heard_all(sim, messages).inventory == sim.inventory,
        sim.shown_in(heard_all(sim, messages)),
    decreases messages.len(),
{
    if messages.len() > 0 {
        lemma_heard_keeps(sim, messages.drop_last());
        lemma_noted_keeps(heard_all(sim, messages.drop_last()), messages.last().discoveries@);
    }
}

proof fn lemma_stored_keeps(sim: SimulationView, messages: Seq<CollectorMessage>)
    requires
        sim.wf(),
        sim.inventory.energy + units(messages) <= u64::MAX,
        sim.inventory.crystals + units(messages) <= u64::MAX,
    ensures
        stored_all(sim, messages).wf(),
        stored_all(sim, messages).world == sim.world,
        stored_all(sim, messages).stocks == sim.stocks,
        stored_all(sim, messages).revealed == sim.revealed,
        stored_all(sim, messages).discovered == sim.discovered,
        sim.inventory.energy <= stored_all(sim, messages).inventory.energy <= sim.inventory.energy + units(messages),
        sim.inventory.crystals <= stored_all(sim, messages).inventory.crystals <= sim.inventory.crystals + units(
            messages,
        ),
        stored_all(sim, messages).delivered() == sim.delivered() + units(messages),
    decreases messages.len(),
{
    if messages.len() > 0 {
        lemma_stored_keeps(sim, messages.drop_last());
    }
}

proof fn lemma_walked_keeps(sim: SimulationView, positions: Seq<Position>)
    requires
        sim.wf(),
    ensures
        walked_all(sim, positions).wf(),
        walked_all(sim, positions).world == sim.world,
        walked_all(sim, positions).stocks == sim.stocks,
        walked_all(sim, positions).inventory == sim.inventory,
        sim.shown_in(walked_all(sim, positions)),
    decreases positions.len(),
{
    if positions.len() > 0 {
        lemma_walked_keeps(sim, positions.drop_last());
        law_fog_only_lifts(walked_all(sim, positions.drop_last()), positions.last());
        lemma_seen_keeps_stocks(walked_all(sim, positions.drop_last()), positions.last());
    }
}

/// The base's part of a tick takes nothing off the map, adds to the inventory
/// exactly what was unloaded, and lifts fog only.
pub proof fn law_base_tick_only_adds(
    sim: SimulationView,
    reports: Seq<ScoutMessage>,
    unloads: Seq<CollectorMessage>,
    fleet: Fleet,
)
    requires
        sim.wf(),
        sim.inventory.energy + units(unloads) <= u64::MAX,
        sim.inventory.crystals + units(unloads) <= u64::MAX,
    ensures
        ({
            let after = base_tick(sim, reports, unloads, fleet);
            &&& after.wf()
            &&& after.world == sim.world
            &&& after.stocks == sim.stocks
            &&& after.total() == sim.total()
            &&& after.inventory.energy >= sim.inventory.energy
            &&& after.inventory.crystals >= sim.inventory.crystals
            &&& after.delivered() == sim.delivered() + units(unloads)
            &&& sim.shown_in(after)
        }),
{
    lemma_heard_keeps(sim, reports);
    lemma_stored_keeps(heard_all(sim, reports), unloads);
    lemma_walked_keeps(stored_all(heard_all(sim, reports), unloads), fleet.all());
}

/// What is left on the map was placed there.
proof fn lemma_total_bound(stocks: Seq<ResourceStock>, nodes: Seq<ResourceNode>)
    requires
        stocks.len() == nodes.len(),
        forall|i: int| 0 <= i < stocks.len() ==> (#[trigger] stocks[i]).remaining <= nodes[i].quantity,
    ensures
        sum_remaining(stocks) <= sum_quantity(nodes),
    decreases stocks.len(),
{
    if stocks.len() > 0 {
        assert forall|i: int| 0 <= i < stocks.drop_last().len() implies (#[trigger] stocks.drop_last()[i]).remaining
            <= nodes.drop_last()[i].quantity by {
            assert(stocks[i].remaining <= nodes[i].quantity);
        }
        lemma_total_bound(stocks.drop_last(), nodes.drop_last());
        assert(stocks[stocks.len() - 1].remaining <= nodes[nodes.len() - 1].quantity);
    }
}

/// Only a key ends the program, and a complete mission not before its last
/// picture has been shown. Nothing ends a run but completion or a key, and
/// nothing brings an ended one back.
pub proof fn law_a_key_ends_the_program(phase: Phase, complete: bool, input: Input)
    ensures
        phase.followed(complete, input) == Phase::Over <==> phase == Phase::Over || (input == Input::Key && (phase
            == Phase::Complete || !complete)),
        phase.followed(complete, input) == Phase::Running <==> phase == Phase::Running && !complete && input
            != Input::Key,
        phase.followed(complete, input) == Phase::Complete <==> (phase == Phase::Running && complete) || (phase
            == Phase::Complete && input != Input::Key),
{
}

/// Whether a discovery uncovers the cell `q` at the base: an obstacle its own
/// cell, a resource its cell and the four next to it.
pub open spec fn uncovers(d: Discovery, q: Position) -> bool {
    match d {
        Discovery::Obstacle { position } => q == position,
        Discovery::Resource { position, .. } => q == position || adjacent(position, q),
    }
}

/// Whether a discovery is of a resource at `p`.
pub open spec fn names_resource(d: Discovery, p: Position) -> bool {
    d matches Discovery::Resource { position, .. } && position == p
}

/// Once the base has read discoveries, the cells that they uncover are revealed
/// and the resources that they name are discovered, besides what was before;
/// nothing else is.
pub proof fn law_discoveries_are_noted(sim: SimulationView, discoveries: Seq<Discovery>, q: Position, i: int)
    requires
        sim.wf(),
        sim.world.holds(q),
    ensures
        noted_all(sim, discoveries).revealed[flat(sim.world.width as int, q)] <==> sim.revealed[flat(
            sim.world.width as int,
            q,
        )] || exists|k: int| 0 <= k < discoveries.len() && uncovers(#[trigger] discoveries[k], q),
        0 <= i < sim.stocks.len() ==> (noted_all(sim, discoveries).discovered[i] <==> sim.discovered[i] || exists|k: int|
            0 <= k < discoveries.len() && names_resource(#[trigger] discoveries[k], sim.stocks[i].position)),
    decreases discoveries.len(),
{
    if discoveries.len() > 0 {
        let front = discoveries.drop_last();
        let last = discoveries.len() - 1;
        let before = noted_all(sim, front);
        let p = sim.stocks[i].position;
        law_discoveries_are_noted(sim, front, q, i);
        lemma_noted_keeps(sim, front);
        let at = match discoveries.last() {
            Discovery::Resource { position, .. } => position,
            Discovery::Obstacle { position } => position,
        };
        law_resource_report_shows_its_cross(before, at, q, i);
        law_seen_cell_is_revealed(before, at, q);
        if exists|k: int| 0 <= k < front.len() && uncovers(#[trigger] front[k], q) {
            let k = choose|k: int| 0 <= k < front.len() && uncovers(#[trigger] front[k], q);
            assert(uncovers(discoveries[k], q));
        }
        if exists|k: int| 0 <= k < front.len() && names_resource(#[trigger] front[k], p) {
            let k = choose|k: int| 0 <= k < front.len() && names_resource(#[trigger] front[k], p);
            assert(names_resource(discoveries[k], p));
        }
        if exists|k: int| 0 <= k < discoveries.len() && uncovers(#[trigger] discoveries[k], q) {
            let k = choose|k: int| 0 <= k < discoveries.len() && uncovers(#[trigger] discoveries[k], q);
            if k < last {
                assert(uncovers(front[k], q));
            }
        }
        if exists|k: int| 0 <= k < discoveries.len() && names_resource(#[trigger] discoveries[k], p) {
            let k = choose|k: int| 0 <= k < discoveries.len() && names_resource(#[trigger] discoveries[k], p);
            if k < last {
                assert(names_resource(front[k], p));
            }
        }
        assert(discoveries[last] == discoveries.last());
    }
}

/// Whether some discovery of a message uncovers `q`.
pub open spec fn message_uncovers(message: ScoutMessage, q: Position) -> bool {
    exists|k: int| 0 <= k < message.discoveries@.len() && uncovers(#[trigger] message.discoveries@[k], q)
}

/// Whether some discovery of a message is of a resource at `p`.
pub open spec fn message_names(message: ScoutMessage, p: Position) -> bool {
    exists|k: int| 0 <= k < message.discoveries@.len() && names_resource(#[trigger] message.discoveries@[k], p)
}

/// Every discovery of every message that the base has read counts, and nothing
/// else is revealed or discovered by them.
pub proof fn law_reports_are_heard(sim: SimulationView, messages: Seq<ScoutMessage>, q: Position, i: int)
    requires
        sim.wf(),
        sim.world.holds(q),
    ensures
        heard_all(sim, messages).revealed[flat(sim.world.width as int, q)] <==> sim.revealed[flat(
            sim.world.width as int,
            q,
        )] || exists|k: int| 0 <= k < messages.len() && message_uncovers(#[trigger] messages[k], q),
        0 <= i < sim.stocks.len() ==> (heard_all(sim, messages).discovered[i] <==> sim.discovered[i] || exists|k: int|
            0 <= k < messages.len() && message_names(#[trigger] messages[k], sim.stocks[i].position)),
    decreases messages.len(),
{
    if messages.len() > 0 {
        let front = messages.drop_last();
        let last = messages.len() - 1;
        let p = sim.stocks[i].position;
        law_reports_are_heard(sim, front, q, i);
        lemma_heard_keeps(sim, front);
        law_discoveries_are_noted(heard_all(sim, front), messages.last().discoveries@, q, i);
        assert(messages[last] == messages.last());
        if exists|k: int| 0 <= k < front.len() && message_uncovers(#[trigger] front[k], q) {
            let k = choose|k: int| 0 <= k < front.len() && message_uncovers(#[trigger] front[k], q);
            assert(message_uncovers(messages[k], q));
        }
        if exists|k: int| 0 <= k < front.len() && message_names(#[trigger] front[k], p) {
            let k = choose|k: int| 0 <= k < front.len() && message_names(#[trigger] front[k], p);
            assert(message_names(messages[k], p));
        }
        if exists|k: int| 0 <= k < messages.len() && message_uncovers(#[trigger] messages[k], q) {
            let k = choose|k: int| 0 <= k < messages.len() && message_uncovers(#[trigger] messages[k], q);
            if k < last {
                assert(message_uncovers(front[k], q));
            }
        }
        if exists|k: int| 0 <= k < messages.len() && message_names(#[trigger] messages[k], p) {
            let k = choose|k: int| 0 <= k < messages.len() && message_names(#[trigger] messages[k], p);
            if k < last {
                assert(message_names(front[k], p));
            }
        }
    }
}

/// The cells where robots stand are revealed, and no others by that.
pub proof fn law_robots_reveal_where_they_stand(sim: SimulationView, positions: Seq<Position>, q: Position)
    requires
        sim.wf(),
        sim.world.holds(q),
    ensures
        walked_all(sim, positions).revealed[flat(sim.world.width as int, q)] <==> sim.revealed[flat(
            sim.world.width as int,
            q,
        )] || positions.contains(q),
        walked_all(sim, positions).discovered == sim.discovered,
    decreases positions.len(),
{
    if positions.len() > 0 {
        let front = positions.drop_last();
        law_robots_reveal_where_they_stand(sim, front, q);
        lemma_walked_keeps(sim, front);
        law_seen_cell_is_revealed(walked_all(sim, front), positions.last(), q);
        assert(positions[positions.len() - 1] == positions.last());
        if front.contains(q) {
            let k = choose|k: int| 0 <= k < front.len() && front[k] == q;
            assert(positions[k] == q);
        }
        if positions.contains(q) {
            let k = choose|k: int| 0 <= k < positions.len() && positions[k] == q;
            if k < front.len() {
                assert(front[k] == q);
            }
        }
    }
}

/// The base stores of each kind what was unloaded of it.
pub proof fn law_unloads_are_stored_by_kind(sim: SimulationView, messages: Seq<CollectorMessage>)
    requires
        sim.wf(),
        sim.inventory.energy + units(messages) <= u64::MAX,
        sim.inventory.crystals + units(messages) <= u64::MAX,
    ensures
        stored_all(sim, messages).inventory.energy == sim.inventory.energy + units_of(messages, ResourceKind::Energy),
        stored_all(sim, messages).inventory.crystals == sim.inventory.crystals + units_of(
            messages,
            ResourceKind::Crystal,
        ),
    decreases messages.len(),
{
    if messages.len() > 0 {
        law_unloads_are_stored_by_kind(sim, messages.drop_last());
        lemma_stored_keeps(sim, messages.drop_last());
        lemma_stored_keeps(sim, messages);
    }
}

/// After the base's part of a tick a cell is revealed where it was before, where
/// a report uncovers it or where a robot stands; a resource is discovered where
/// it was before or a report names it; and of each kind the base has what it had
/// and what was unloaded. What is on the map stays there.
pub proof fn law_base_tick_books_everything(
    sim: SimulationView,
    reports: Seq<ScoutMessage>,
    unloads: Seq<CollectorMessage>,
    fleet: Fleet,
    q: Position,
    i: int,
)
    requires
        sim.wf(),
        sim.inventory.energy + units(unloads) <= u64::MAX,
        sim.inventory.crystals + units(unloads) <= u64::MAX,
        sim.world.holds(q),
    ensures
        ({
            let after = base_tick(sim, reports, unloads, fleet);
            let c = flat(sim.world.width as int, q);
            &&& after.revealed[c] <==> {
                ||| sim.revealed[c]
                ||| fleet.scouts.contains(q)
                ||| fleet.collectors.contains(q)
                ||| exists|k: int| 0 <= k < reports.len() && message_uncovers(#[trigger] reports[k], q)
            }
            &&& 0 <= i < sim.stocks.len() ==> (after.discovered[i] <==> sim.discovered[i] || exists|k: int|
                0 <= k < reports.len() && message_names(#[trigger] reports[k], sim.stocks[i].position))
            &&& after.inventory.energy == sim.inventory.energy + units_of(unloads, ResourceKind::Energy)
            &&& after.inventory.crystals == sim.inventory.crystals + units_of(unloads, ResourceKind::Crystal)
            &&& after.stocks == sim.stocks
            &&& after.world == sim.world
        }),
{
    let heard = heard_all(sim, reports);
    let stored = stored_all(heard, unloads);
    lemma_heard_keeps(sim, reports);
    law_reports_are_heard(sim, reports, q, i);
    lemma_stored_keeps(heard, unloads);
    law_unloads_are_stored_by_kind(heard, unloads);
    lemma_walked_keeps(stored, fleet.all());
    law_robots_reveal_where_they_stand(stored, fleet.all(), q);
    lemma_fleet_holds(fleet, q);
}

/// A robot is where its last report says, and where it was if it reported
/// nothing: scouts have the numbers 0 to 3, collectors 4 to 6.
pub proof fn law_last_report_counts(fleet: Fleet, moves: Seq<(u16, Position)>, id: u16, k: int)
    requires
        fleet.scouts.len() == 4,
        fleet.collectors.len() == 3,
        id < 7,
        -1 <= k < moves.len(),
        k >= 0 ==> moves[k].0 == id,
        forall|j: int| k < j < moves.len() ==> (#[trigger] moves[j]).0 != id,
    ensures
        ({
            let after = fleet.moved_all(moves);
            &&& id < 4 ==> after.scouts[id as int] == if k >= 0 {
                moves[k].1
            } else {
                fleet.scouts[id as int]
            }
            &&& id >= 4 ==> after.collectors[id - 4] == if k >= 0 {
                moves[k].1
            } else {
                fleet.collectors[id - 4]
            }
        }),
    decreases moves.len(),
{
    if moves.len() > 0 {
        let front = moves.drop_last();
        lemma_moved_size(fleet, front);
        assert(moves[moves.len() - 1] == moves.last());
        if k < moves.len() - 1 {
            assert forall|j: int| k < j < front.len() implies (#[trigger] front[j]).0 != id by {
                assert(front[j] == moves[j]);
            }
            if k >= 0 {
                assert(front[k] == moves[k]);
            }
            law_last_report_counts(fleet, front, id, k);
        }
    }
}

/// Writing robots into the map of robots changes the cells where they stand, to
/// what is written, and no others.
pub proof fn law_stamps_show_where_robots_stand(
    robots: Seq<Option<RobotKind>>,
    width: int,
    height: int,
    positions: Seq<Position>,
    kind: Option<RobotKind>,
    p: Position,
)
    requires
        robots.len() == width * height,
        on_map(width, height, p),
    ensures
        stamped(robots, width, height, positions, kind)[flat(width, p)] == if positions.contains(p) {
            kind
        } else {
            robots[flat(width, p)]
        },
    decreases positions.len(),
{
    if positions.len() > 0 {
        let front = positions.drop_last();
        let before = stamped(robots, width, height, front, kind);
        let last = positions.last();
        law_stamps_show_where_robots_stand(robots, width, height, front, kind, p);
        lemma_stamped_size(robots, width, height, front, kind);
        lemma_flat(width, height, p);
        if on_map(width, height, last) {
            lemma_flat(width, height, last);
            if last != p && flat(width, last) == flat(width, p) {
                lemma_flat_injective(width, height, last, p);
            }
        }
        assert(positions[positions.len() - 1] == last);
        if front.contains(p) {
            let k = choose|k: int| 0 <= k < front.len() && front[k] == p;
            assert(positions[k] == p);
        }
        if positions.contains(p) {
            let k = choose|k: int| 0 <= k < positions.len() && positions[k] == p;
            if k < front.len() {
                assert(front[k] == p);
            }
        }
    }
}

impl AppView {
    /// Whether the map of robots shows none where the fleet has none.
    pub open spec fn no_ghosts(self) -> bool {
        forall|p: Position|
            #![trigger self.robots[flat(self.world.width as int, p)]]
            self.world.holds(p) && self.robots[flat(self.world.width as int, p)] is Some ==> self.fleet.scouts.contains(
                p,
            ) || self.fleet.collectors.contains(p)
    }
}

/// Before the first tick no robot is drawn.
pub proof fn law_booted_run_shows_no_ghosts(world: WorldView, theme: ThemeView)
    requires
        world.wf(),
    ensures
        AppView::booted(world, theme).no_ghosts(),
{
    let app = AppView::booted(world, theme);
    assert forall|p: Position|
        #![trigger app.robots[flat(app.world.width as int, p)]]
        app.world.holds(p) && app.robots[flat(app.world.width as int, p)] is Some implies app.fleet.scouts.contains(p)
        || app.fleet.collectors.contains(p) by {
        lemma_flat(world.width as int, world.height as int, p);
    }
}

/// After a step the map of robots shows a collector where one stands, else a
/// scout where one stands, and no robot anywhere else.
pub proof fn law_robots_are_drawn_where_they_are(
    app: AppView,
    moves: Seq<(u16, Position)>,
    sim: SimulationView,
    p: Position,
)
    requires
        app.wf(),
        app.no_ghosts(),
        app.world.holds(p),
    ensures
        ({
            let next = app.stepped(moves, sim);
            next.robots[flat(app.world.width as int, p)] == if next.fleet.collectors.contains(p) {
                Some(RobotKind::Collector)
            } else if next.fleet.scouts.contains(p) {
                Some(RobotKind::Scout)
            } else {
                None
            }
        }),
{
    let width = app.world.width as int;
    let height = app.world.height as int;
    let fleet = app.fleet.moved_all(moves);
    let first = stamped(app.robots, width, height, app.fleet.scouts, None);
    let left = stamped(first, width, height, app.fleet.collectors, None);
    let scouts_in = stamped(left, width, height, fleet.scouts, Some(RobotKind::Scout));
    lemma_stamped_size(app.robots, width, height, app.fleet.scouts, None);
    lemma_stamped_size(first, width, height, app.fleet.collectors, None);
    lemma_stamped_size(left, width, height, fleet.scouts, Some(RobotKind::Scout));
    law_stamps_show_where_robots_stand(app.robots, width, height, app.fleet.scouts, None, p);
    law_stamps_show_where_robots_stand(first, width, height, app.fleet.collectors, None, p);
    law_stamps_show_where_robots_stand(left, width, height, fleet.scouts, Some(RobotKind::Scout), p);
    law_stamps_show_where_robots_stand(scouts_in, width, height, fleet.collectors, Some(RobotKind::Collector), p);
    assert(app.robots[flat(width, p)] is Some ==> app.fleet.scouts.contains(p) || app.fleet.collectors.contains(p));
}

/// A step leaves no robot drawn where none is.
pub proof fn law_steps_leave_no_ghosts(app: AppView, moves: Seq<(u16, Position)>, sim: SimulationView)
    requires
        app.wf(),
        app.no_ghosts(),
    ensures
        app.stepped(moves, sim).no_ghosts(),
{
    let next = app.stepped(moves, sim);
    assert forall|p: Position|
        #![trigger next.robots[flat(next.world.width as int, p)]]
        next.world.holds(p) && next.robots[flat(next.world.width as int, p)] is Some implies next.fleet.scouts.contains(
        p,
    ) || next.fleet.collectors.contains(p) by {
        law_robots_are_drawn_where_they_are(app, moves, sim, p);
    }
}

/// What is drawn and measured after a step is what the simulation holds then:
/// the fog, the inventory, what is left, stock by stock and together, and what
/// has been discovered. Each step counts one tick; the map, the theme and the
/// initial total stay.
pub proof fn law_step_copies_the_simulation(app: AppView, moves: Seq<(u16, Position)>, sim: SimulationView, i: int)
    requires
        app.wf(),
        sim.wf(),
        sim.world == app.world,
        app.tick < u64::MAX,
    ensures
        ({
            let next = app.stepped(moves, sim);
            let m = next.measured();
            &&& next.world == app.world
            &&& next.theme == app.theme
            &&& next.revealed == sim.revealed
            &&& next.discovered == sim.discovered
            &&& next.stock_at == sim.table()
            &&& 0 <= i < sim.stocks.len() ==> next.stock_remaining[i] == sim.stocks[i].remaining
                && next.stock_initial[i] == sim.stocks[i].initial
            &&& next.stock_remaining.len() == sim.stocks.len() && next.stock_initial.len() == sim.stocks.len()
            &&& m.tick == app.tick + 1
            &&& m.energy == sim.inventory.energy
            &&& m.crystals == sim.inventory.crystals
            &&& m.remaining == sim.total()
            &&& m.initial_total == app.initial_total
            &&& m.revealed_cells == count_true(sim.revealed)
            &&& m.discovered_resources == count_true(sim.discovered)
        }),
{
    law_resources_fit_the_map(app.world);
    lemma_count_bound(sim.revealed);
    lemma_count_bound(sim.discovered);
}

/// A run begins at tick zero with four scouts and three collectors, all at the
/// base, everything placed still to be collected, and nothing known.
pub proof fn law_run_begins_at_the_base(world: WorldView, theme: ThemeView, i: int)
    requires
        world.wf(),
        sum_quantity(world.resources) <= u64::MAX,
    ensures
        ({
            let app = AppView::booted(world, theme);
            let m = app.measured();
            &&& app.world == world && app.theme == theme
            &&& app.fleet.scouts.len() == 4 && app.fleet.collectors.len() == 3
            &&& 0 <= i < 4 ==> app.fleet.scouts[i] == world.base
            &&& 0 <= i < 3 ==> app.fleet.collectors[i] == world.base
            &&& m.tick == 0 && m.energy == 0 && m.crystals == 0
            &&& m.initial_total == sum_quantity(world.resources)
            &&& m.remaining == m.initial_total
            &&& m.revealed_cells == 0 && m.discovered_resources == 0
        }),
{
    lemma_count_none(AppView::booted(world, theme).revealed);
    lemma_count_none(AppView::booted(world, theme).discovered);
}

/// In a step the base sees the world as the robots left it: where each of them is
/// by its last report, the cells under them and those that reports uncover are
/// revealed, besides what was; of each kind it has what it had and what was
/// unloaded; and it draws and counts just that.
pub proof fn law_step_books_what_happened(
    app: AppView,
    sim: SimulationView,
    moves: Seq<(u16, Position)>,
    reports: Seq<ScoutMessage>,
    unloads: Seq<CollectorMessage>,
    q: Position,
    i: int,
)
    requires
        app.wf(),
        sim.wf(),
        sim.world == app.world,
        app.tick < u64::MAX,
        sim.inventory.energy + units(unloads) <= u64::MAX,
        sim.inventory.crystals + units(unloads) <= u64::MAX,
        app.world.holds(q),
    ensures
        ({
            let (next, after) = app.worked(sim, moves, reports, unloads);
            let fleet = app.fleet.moved_all(moves);
            let c = flat(app.world.width as int, q);
            &&& next.fleet == fleet
            &&& next.revealed == after.revealed && next.discovered == after.discovered
            &&& next.revealed[c] <==> {
                ||| sim.revealed[c]
                ||| fleet.scouts.contains(q)
                ||| fleet.collectors.contains(q)
                ||| exists|k: int| 0 <= k < reports.len() && message_uncovers(#[trigger] reports[k], q)
            }
            &&& 0 <= i < sim.stocks.len() ==> (next.discovered[i] <==> sim.discovered[i] || exists|k: int|
                0 <= k < reports.len() && message_names(#[trigger] reports[k], sim.stocks[i].position))
            &&& next.inventory.energy == sim.inventory.energy + units_of(unloads, ResourceKind::Energy)
            &&& next.inventory.crystals == sim.inventory.crystals + units_of(unloads, ResourceKind::Crystal)
            &&& after.inventory == next.inventory
            &&& next.remaining == sim.total()
            &&& 0 <= i < sim.stocks.len() ==> next.stock_remaining[i] == sim.stocks[i].remaining
                && next.stock_initial[i] == sim.stocks[i].initial
            &&& next.tick == app.tick + 1
            &&& after.stocks == sim.stocks && after.world == sim.world
        }),
{
    law_base_tick_only_adds(sim, reports, unloads, app.fleet.moved_all(moves));
    law_base_tick_books_everything(sim, reports, unloads, app.fleet.moved_all(moves), q, i);
}

/// Before the robots move, a cell of the map other than the base is reserved
/// where one of them stands, and only there, whatever was reserved before.
pub proof fn law_reservations_are_where_the_robots_are(app: AppView, occ: OccupancyView, p: Position)
    requires
        occ.wf(),
        occ.holds(p),
        p != occ.base,
    ensures
        app.reservations(occ).taken(p) <==> app.fleet.scouts.contains(p) || app.fleet.collectors.contains(p),
{
    let cleared = OccupancyView { occupied: Seq::new(occ.occupied.len(), |i: int| false), ..occ };
    lemma_flat(occ.width as int, occ.height as int, p);
    law_reserved_cells_are_taken(cleared, app.fleet.all(), p);
    lemma_fleet_holds(app.fleet, p);
}

proof fn lemma_fleet_holds(fleet: Fleet, p: Position)
    ensures
        fleet.all().contains(p) <==> fleet.scouts.contains(p) || fleet.collectors.contains(p),
{
    let all = fleet.all();
    if all.contains(p) {
        let k = choose|k: int| 0 <= k < all.len() && all[k] == p;
        if k < fleet.scouts.len() {
            assert(fleet.scouts[k] == p);
        } else {
            assert(fleet.collectors[k - fleet.scouts.len()] == p);
        }
    }
    if fleet.scouts.contains(p) {
        let k = choose|k: int| 0 <= k < fleet.scouts.len() && fleet.scouts[k] == p;
        assert(all[k] == p);
    }
    if fleet.collectors.contains(p) {
        let k = choose|k: int| 0 <= k < fleet.collectors.len() && fleet.collectors[k] == p;
        assert(all[k + fleet.scouts.len()] == p);
    }
}

/// Reserving the positions of robots takes exactly their cells, but for the
/// base.
pub proof fn law_reserved_cells_are_taken(occ: OccupancyView, positions: Seq<Position>, p: Position)
    requires
        occ.wf(),
        occ.holds(p),
        p != occ.base,
    ensures
        reserved_all(occ, positions).taken(p) <==> occ.taken(p) || positions.contains(p),
    decreases positions.len(),
{
    if positions.len() > 0 {
        let front = positions.drop_last();
        let before = reserved_all(occ, front);
        let last = positions.last();
        law_reserved_cells_are_taken(occ, front, p);
        lemma_reserved_size(occ, front);
        if p != last {
            law_other_cells_unchanged(before, last, p, true);
        } else {
            lemma_flat(occ.width as int, occ.height as int, p);
        }
        assert(positions[positions.len() - 1] == last);
        if front.contains(p) {
            let k = choose|k: int| 0 <= k < front.len() && front[k] == p;
            assert(positions[k] == p);
        }
        if positions.contains(p) {
            let k = choose|k: int| 0 <= k < positions.len() && positions[k] == p;
            if k < front.len() {
                assert(front[k] == p);
            }
        }
    }
}

proof fn lemma_stamped_size(
    robots: Seq<Option<RobotKind>>,
    width: int,
    height: int,
    positions: Seq<Position>,
    kind: Option<RobotKind>,
)
    requires
        robots.len() == width * height,
    ensures
        stamped(robots, width, height, positions, kind).len() == robots.len(),
    decreases positions.len(),
{
    if positions.len() > 0 {
        lemma_stamped_size(robots, width, height, positions.drop_last(), kind);
        if on_map(width, height, positions.last()) {
            lemma_flat(width, height, positions.last());
        }
    }
}

proof fn lemma_moved_size(fleet: Fleet, moves: Seq<(u16, Position)>)
    requires
        fleet.scouts.len() == NUM_SCOUTS,
        fleet.collectors.len() == NUM_COLLECTORS,
    ensures
        fleet.moved_all(moves).scouts.len() == NUM_SCOUTS,
        fleet.moved_all(moves).collectors.len() == NUM_COLLECTORS,
    decreases moves.len(),
{
    if moves.len() > 0 {
        lemma_moved_size(fleet, moves.drop_last());
    }
}

/// A step on a simulation of the same map leaves the run in order.
pub proof fn law_step_keeps_order(app: AppView, moves: Seq<(u16, Position)>, sim: SimulationView)
    requires
        app.wf(),
        sim.wf(),
        sim.world == app.world,
    ensures
        app.stepped(moves, sim).wf(),
{
    let width = app.world.width as int;
    let height = app.world.height as int;
    let fleet = app.fleet.moved_all(moves);
    let scouts_left = stamped(app.robots, width, height, app.fleet.scouts, None);
    let left = stamped(scouts_left, width, height, app.fleet.collectors, None);
    let scouts_in = stamped(left, width, height, fleet.scouts, Some(RobotKind::Scout));
    lemma_moved_size(app.fleet, moves);
    lemma_stamped_size(app.robots, width, height, app.fleet.scouts, None);
    lemma_stamped_size(scouts_left, width, height, app.fleet.collectors, None);
    lemma_stamped_size(left, width, height, fleet.scouts, Some(RobotKind::Scout));
    lemma_stamped_size(scouts_in, width, height, fleet.collectors, Some(RobotKind::Collector));
    lemma_total_bound(sim.stocks, sim.world.resources);
    law_resources_fit_the_map(app.world);
    let table = sim.table();
    assert forall|c: int| 0 <= c < table.len() implies match #[trigger] table[c] {
        Some(i) => i < app.world.resources.len(),
        None => true,
    } by {
        let p = unflat(width, c);
        if let Some(i) = sim.stock_index(p) {
            assert(sim.stands_at(i, p));
        }
    }
}

impl App {
    /// The static map is in order.
    pub closed spec fn mapped(&self) -> bool {
        self.sim_world.wf()
    }

    /// What is true of every run.
    pub open spec fn wf(&self) -> bool {
        self.mapped() && self@.wf()
    }

    /// Sets up a run: the world of a seed and a preset, the simulation on it,
    /// and the robots at the base.
    pub fn new(
        seed: u64,
        preset: MapPreset,
        visual_theme: VisualTheme,
        reveal_mode: RevealMode,
        terrain: &Vec<Option<BiomeId>>,
    ) -> (made: Result<(App, Simulation), ConfigError>)
        requires
            terrain@.len() == preset.settings().width * preset.settings().height,
        ensures
            made matches Ok((app, sim)) && {
                let world = generated(seed, preset.settings(), terrain@);
                let started = SimulationView::started(world);
                &&& app.wf()
                &&& sim.wf()
                &&& app@ == AppView::booted(world, visual_theme@)
                &&& app@.world.resources.len() == preset.settings().node_count(
                    preset.settings().pool(preset.settings().ground(terrain@)).len(),
                )
                &&& app@.world.resources.len() * MIN_QUANTITY <= app@.initial_total <= app@.world.resources.len()
                    * MAX_QUANTITY
                &&& sim@ == match reveal_mode {
                    RevealMode::Normal => started,
                    RevealMode::NoFog => started.with_terrain_seen(),
                    RevealMode::Full => started.with_all_seen(),
                }
                &&& sim@ == started.with_mode(reveal_mode)
            },
    {
        let sim_world = World::generate(seed, preset.config(), terrain)?;
        let ghost view = sim_world@;
        proof {
            lemma_quantity_bound(view, view.resources.len() as int);
            assert(view.resources.take(view.resources.len() as int) =~= view.resources);
            lemma_fresh_total(view.resources);
        }
        let mut sim = Simulation::new(sim_world.clone());
        let app = App::boot(sim_world, visual_theme, sim.total_remaining());
        sim.apply_reveal_mode(reveal_mode);
        Ok((app, sim))
    }

    /// A run on a fresh world, before its first tick.
    fn boot(sim_world: World, visual_theme: VisualTheme, initial_remaining: u64) -> (app: App)
        requires
            sim_world.wf(),
            initial_remaining == sum_quantity(sim_world@.resources),
        ensures
            app.wf(),
            app@ == AppView::booted(sim_world@, visual_theme@),
    {
        let base = sim_world.base();
        let cell_count = sim_world.cell_count();
        let stock_count = sim_world.resources().len();
        let app = App {
            sim_world,
            visual_theme,
            scout_positions: vec![base; NUM_SCOUTS as usize],
            collector_positions: vec![base; NUM_COLLECTORS as usize],
            robot_at: vec![None; cell_count],
            revealed_cache: vec![false; cell_count],
            cached_energy: 0,
            cached_crystals: 0,
            cached_remaining: initial_remaining,
            stock_at_cache: vec![None; cell_count],
            stock_remaining_cache: vec![0; stock_count],
            stock_initial_cache: vec![0; stock_count],
            resource_discovered_cache: vec![false; stock_count],
            cached_initial_total: initial_remaining,
            tick: 0,
        };
        proof {
            assert(app@ =~= AppView::booted(sim_world@, visual_theme@));
        }
        app
    }

    /// The static map.
    pub fn world(&self) -> (world: &World)
        requires
            self.wf(),
        ensures
            world.wf(),
            world@ == self@.world,
    {
        &self.sim_world
    }

    pub fn scout_positions(&self) -> (positions: &[Position])
        ensures
            positions@ == self@.fleet.scouts,
    {
        self.scout_positions.as_slice()
    }

    pub fn collector_positions(&self) -> (positions: &[Position])
        ensures
            positions@ == self@.fleet.collectors,
    {
        self.collector_positions.as_slice()
    }

    pub fn metrics(&self) -> (metrics: SimMetrics)
        ensures
            metrics == self@.measured(),
    {
        SimMetrics {
            tick: self.tick,
            energy: self.cached_energy,
            crystals: self.cached_crystals,
            remaining: self.cached_remaining,
            initial_total: self.cached_initial_total,
            revealed_cells: count_set(&self.revealed_cache),
            discovered_resources: count_set(&self.resource_discovered_cache),
        }
    }

    /// Before the robots move: reserves the cells where they stand, and no
    /// other.
    pub fn reserve_positions(&self, occupancy: &mut OccupancyGrid)
        requires
            old(occupancy)@.wf(),
        ensures
            final(occupancy)@.wf(),
            final(occupancy)@ == reserved_all(
                OccupancyView {
                    occupied: Seq::new(old(occupancy)@.occupied.len(), |i: int| false),
                    ..old(occupancy)@
                },
                self@.fleet.all(),
            ),
            final(occupancy)@ == self@.reservations(old(occupancy)@),
    {
        occupancy.clear();
        proof {
            lemma_reserved_append(occupancy@, self@.fleet.scouts, self@.fleet.collectors);
        }
        reserve(occupancy, &self.scout_positions);
        reserve(occupancy, &self.collector_positions);
    }

    /// After the robots have moved: books where they are, what the scouts report
    /// and what the collectors unload, and refreshes what is drawn.
    pub fn step(
        &mut self,
        sim: &mut Simulation,
        moves: &Vec<(u16, Position)>,
        reports: &Vec<ScoutMessage>,
        unloads: &Vec<CollectorMessage>,
    )
        requires
            old(self).wf(),
            old(sim).wf(),
            old(sim)@.world == old(self)@.world,
            old(self)@.tick < u64::MAX,
            old(sim)@.inventory.energy + units(unloads@) <= u64::MAX,
            old(sim)@.inventory.crystals + units(unloads@) <= u64::MAX,
        ensures
            final(self).wf(),
            final(sim).wf(),
            final(sim)@ == base_tick(old(sim)@, reports@, unloads@, old(self)@.fleet.moved_all(moves@)),
            final(self)@ == old(self)@.stepped(moves@, final(sim)@),
            (final(self)@, final(sim)@) == old(self)@.worked(old(sim)@, moves@, reports@, unloads@),
    {
        let width = self.sim_world.width();
        let height = self.sim_world.height();
        stamp(&mut self.robot_at, width, height, &self.scout_positions, None);
        stamp(&mut self.robot_at, width, height, &self.collector_positions, None);
        let ghost left = self.robot_at@;
        for i in 0..moves.len()
            invariant
                self@.fleet == old(self)@.fleet.moved_all(moves@.take(i as int)),
                self@ == (AppView { fleet: self@.fleet, robots: left, ..old(self)@ }),
                self.mapped(),
                self@.fleet.scouts.len() == NUM_SCOUTS,
                self@.fleet.collectors.len() == NUM_COLLECTORS,
        {
            assert(moves@.take(i + 1).drop_last() =~= moves@.take(i as int));
            let (id, position) = moves[i];
            if id < NUM_SCOUTS {
                self.scout_positions[id as usize] = position;
            } else {
                let place = (id - NUM_SCOUTS) as usize;
                if place < self.collector_positions.len() {
                    self.collector_positions[place] = position;
                }
            }
        }
        assert(moves@.take(moves@.len() as int) =~= moves@);
        stamp(&mut self.robot_at, width, height, &self.scout_positions, Some(RobotKind::Scout));
        stamp(&mut self.robot_at, width, height, &self.collector_positions, Some(RobotKind::Collector));

        let ghost before = sim@;
        proof {
            lemma_heard_keeps(before, reports@);
            law_base_tick_only_adds(before, reports@, unloads@, self@.fleet);
        }
        hear_reports(sim, reports);
        store_unloads(sim, unloads);
        proof {
            lemma_walked_append(sim@, self@.fleet.scouts, self@.fleet.collectors);
        }
        reveal_positions(sim, &self.scout_positions);
        reveal_positions(sim, &self.collector_positions);
        self.refresh(sim);
        self.tick += 1;
    }

    /// Copies what is drawn from the simulation.
    fn refresh(&mut self, sim: &Simulation)
        requires
            sim.wf(),
            old(self).mapped(),
            sim@.world == old(self)@.world,
            old(self)@.fleet.scouts.len() == NUM_SCOUTS,
            old(self)@.fleet.collectors.len() == NUM_COLLECTORS,
            old(self)@.robots.len() == old(self)@.world.cells.len(),
            old(self)@.initial_total == sum_quantity(old(self)@.world.resources),
        ensures
            final(self).wf(),
            final(self)@ == (AppView {
                revealed: sim@.revealed,
                inventory: sim@.inventory,
                remaining: sim@.total() as u64,
                stock_at: sim@.table(),
                stock_remaining: Seq::new(sim@.stocks.len(), |i: int| sim@.stocks[i].remaining),
                stock_initial: Seq::new(sim@.stocks.len(), |i: int| sim@.stocks[i].initial),
                discovered: sim@.discovered,
                ..old(self)@
            }),
    {
        self.revealed_cache = copied(sim.revealed_bitmap());
        let inventory = sim.inventory();
        self.cached_energy = inventory.energy;
        self.cached_crystals = inventory.crystals;
        self.cached_remaining = sim.total_remaining();
        self.stock_at_cache = copied(sim.stock_table());
        let stocks = sim.stocks();
        let mut remaining: Vec<u16> = Vec::with_capacity(stocks.len());
        let mut initial: Vec<u16> = Vec::with_capacity(stocks.len());
        for i in 0..stocks.len()
            invariant
                stocks@ == sim@.stocks,
                remaining@ == Seq::new(i as nat, |k: int| sim@.stocks[k].remaining),
                initial@ == Seq::new(i as nat, |k: int| sim@.stocks[k].initial),
        {
            remaining.push(stocks[i].remaining);
            initial.push(stocks[i].initial);
            assert(remaining@ =~= Seq::new((i + 1) as nat, |k: int| sim@.stocks[k].remaining));
            assert(initial@ =~= Seq::new((i + 1) as nat, |k: int| sim@.stocks[k].initial));
        }
        self.stock_remaining_cache = remaining;
        self.stock_initial_cache = initial;
        self.resource_discovered_cache = copied(sim.discovered_bitmap());
        proof {
            assert forall|i: int| 0 <= i < sim@.stocks.len() implies (#[trigger] sim@.stocks[i]).remaining
                <= sim@.world.resources[i].quantity by {}
            lemma_total_bound(sim@.stocks, sim@.world.resources);
            assert forall|c: int| 0 <= c < self@.stock_at.len() implies match #[trigger] self@.stock_at[c] {
                Some(i) => i < self@.world.resources.len(),
                None => true,
            } by {
                let p = unflat(sim@.world.width as int, c);
                if let Some(i) = sim@.stock_index(p) {
                    assert(sim@.stands_at(i, p));
                }
            }
        }
    }

    /// A view of the run for rendering.
    pub fn snapshot(&self) -> (shot: AppSnapshot<'_>)
        ensures
            shot.sim_world@ == self@.world,
            self.wf() ==> shot.wf(),
            shot.visual_theme@ == self@.theme,
            shot.robot_at@ == self@.robots,
            shot.revealed_cache@ == self@.revealed,
            shot.cached_energy == self@.inventory.energy,
            shot.cached_crystals == self@.inventory.crystals,
            shot.cached_remaining == self@.remaining,
            shot.stock_at_cache@ == self@.stock_at,
            shot.stock_remaining_cache@ == self@.stock_remaining,
            shot.stock_initial_cache@ == self@.stock_initial,
            shot.resource_discovered_cache@ == self@.discovered,
            shot.cached_initial_total == self@.initial_total,
            shot.tick == self@.tick,
            shot.num_scouts == NUM_SCOUTS,
            shot.num_collectors == NUM_COLLECTORS,
    {
        AppSnapshot {
            sim_world: &self.sim_world,
            visual_theme: &self.visual_theme,
            robot_at: self.robot_at.as_slice(),
            revealed_cache: self.revealed_cache.as_slice(),
            cached_energy: self.cached_energy,
            cached_crystals: self.cached_crystals,
            cached_remaining: self.cached_remaining,
            stock_at_cache: self.stock_at_cache.as_slice(),
            stock_remaining_cache: self.stock_remaining_cache.as_slice(),
            stock_initial_cache: self.stock_initial_cache.as_slice(),
            resource_discovered_cache: self.resource_discovered_cache.as_slice(),
            cached_initial_total: self.cached_initial_total,
            tick: self.tick,
            num_scouts: NUM_SCOUTS,
            num_collectors: NUM_COLLECTORS,
        }
    }
}

} // verus!
