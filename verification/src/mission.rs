//! A whole mission: the base, the map and every robot, through everything that
//! can happen to them, in any order.

use crate::app::{base_tick, law_base_tick_only_adds, law_step_keeps_order, AppView, Fleet};
use crate::app::{SimMetrics, NUM_COLLECTORS, NUM_SCOUTS};
use crate::collector::{law_collision_keeps_footing, law_one_unit_a_tick, law_others_stay_sorted};
use crate::collector::{law_tick_keeps_footing, law_tick_keeps_units};
use crate::collector::{CollectorConfig, CollectorMessage, CollectorView};
use crate::grid::lemma_flat;
use crate::ledger::{accounted, in_flight_after, law_mission_starts_balanced, law_tick_balances};
use crate::ledger::{lemma_carried_update, lemma_units_split};
use crate::occupancy::{law_resolve_stays_walkable, resolved, OccupancyView};
use crate::scout::{law_scout_tick_keeps_footing, law_scout_turn_keeps_footing, ScoutMessage, ScoutView};
use crate::simulation::SimulationView;
use crate::tally::{count_true, lemma_count_bound, lemma_count_monotone};
use crate::world::{law_resources_fit_the_map, Cell, Position, WorldView};
use vstd::prelude::*;

verus! {

/// All that takes part in a mission.
#[verifier::ext_equal]
pub struct Mission {
    pub app: AppView,
    pub sim: SimulationView,
    pub scouts: Seq<ScoutView>,
    pub collectors: Seq<CollectorView>,
    /// The positions that robots have reported and the base has not read yet.
    pub moves: Seq<(u16, Position)>,
    /// The unloads that collectors have announced and the base has not read yet.
    pub in_flight: Seq<CollectorMessage>,
}

/// What can happen next.
pub enum Event {
    /// A collector ticks.
    CollectorTicks { i: int, next: CollectorView, after: SimulationView },
    /// A collector that came from the cell `from` gives way to other robots.
    CollectorSettles { i: int, from: Position, occ: OccupancyView },
    /// A scout ticks.
    ScoutTicks { i: int, next: ScoutView },
    /// A scout is turned in the middle of its tick.
    ScoutTurns { i: int, penalty: Seq<u8>, inside: Seq<bool>, next: ScoutView },
    /// A scout that came from the cell `from` gives way to other robots.
    ScoutSettles { i: int, from: Position, occ: OccupancyView },
    /// A scout reports where it is.
    ScoutReports { i: int },
    /// A collector reports where it is.
    CollectorReports { i: int },
    /// The base steps: it reads so many of the positions and unloads that have
    /// been sent, and reports of scouts.
    BaseSteps { moves: int, unloads: int, reports: Seq<ScoutMessage> },
}

/// How many of the events are steps of the base.
pub open spec fn steps(events: Seq<Event>) -> nat
    decreases events.len(),
{
    if events.len() == 0 {
        0
    } else {
        steps(events.drop_last()) + if events.last() is BaseSteps {
            1nat
        } else {
            0nat
        }
    }
}

/// Whether all the positions are walkable cells of `world`.
pub open spec fn all_walkable(world: WorldView, positions: Seq<Position>) -> bool {
    forall|i: int| 0 <= i < positions.len() ==> world.cell_at(#[trigger] positions[i]) == Some(Cell::Walkable)
}

/// Whether every bit that is set in `a` is set in `b`.
pub open spec fn covered(a: Seq<bool>, b: Seq<bool>) -> bool {
    a.len() == b.len() && forall|i: int| 0 <= i < a.len() && #[trigger] a[i] ==> b[i]
}

/// Whether metrics can be those of `ticks` ticks later: the total stays, the
/// units at the base never become fewer nor those on the map more, both
/// together do not exceed the total, and what is revealed or discovered stays
/// so.
pub open spec fn moved_on(earlier: SimMetrics, later: SimMetrics, ticks: nat) -> bool {
    &&& later.tick == earlier.tick + ticks
    &&& later.initial_total == earlier.initial_total
    &&& later.energy >= earlier.energy
    &&& later.crystals >= earlier.crystals
    &&& later.remaining <= earlier.remaining
    &&& later.energy + later.crystals + later.remaining <= later.initial_total
    &&& later.revealed_cells >= earlier.revealed_cells
    &&& later.discovered_resources >= earlier.discovered_resources
}

impl Mission {
    /// A mission that is about to begin: nothing has been copied from the
    /// simulation, every robot is at the base, and no message is on its way.
    pub open spec fn begun(self) -> bool {
        let world = self.app.world;
        let started = SimulationView::started(world);
        &&& self.app.wf()
        &&& self.app == AppView::booted(world, self.app.theme)
        &&& self.sim == started || self.sim == started.with_terrain_seen() || self.sim == started.with_all_seen()
        &&& self.scouts.len() == NUM_SCOUTS
        &&& forall|i: int|
            0 <= i < self.scouts.len() ==> {
                let scout = #[trigger] self.scouts[i];
                scout.wf() && scout.knows(world) && scout.turning is None && scout.position == world.base
            }
        &&& self.collectors.len() == NUM_COLLECTORS
        &&& forall|i: int|
            0 <= i < self.collectors.len() ==> {
                let c = #[trigger] self.collectors[i];
                let config = CollectorConfig { carry_capacity: c.capacity };
                c == CollectorView::fresh(c.id, world.base, config, c.map_size) && c.map_size >= world.cells.len()
            }
        &&& self.moves.len() == 0
        &&& self.in_flight.len() == 0
    }

    /// Whether an event can happen now.
    pub open spec fn may(self, e: Event) -> bool {
        let world = self.app.world;
        match e {
            Event::CollectorTicks { i, next, after } => {
                &&& 0 <= i < self.collectors.len()
                &&& self.collectors[i].stats.ticks < u64::MAX
                &&& self.collectors[i].ticked(self.sim, next, after)
            },
            Event::CollectorSettles { i, from, .. } => 0 <= i < self.collectors.len() && world.cell_at(from) == Some(
                Cell::Walkable,
            ),
            Event::ScoutTicks { i, next } => {
                &&& 0 <= i < self.scouts.len()
                &&& self.scouts[i].turning is None
                &&& self.scouts[i].stats.ticks < u64::MAX
                &&& self.scouts[i].ticked(world, next)
            },
            Event::ScoutTurns { i, penalty, inside, next } => {
                &&& 0 <= i < self.scouts.len()
                &&& self.scouts[i].turning is Some
                &&& penalty.len() == world.cells.len()
                &&& inside.len() == world.cells.len()
                &&& self.scouts[i].turned(world, penalty, inside, next)
            },
            Event::ScoutSettles { i, from, .. } => {
                &&& 0 <= i < self.scouts.len()
                &&& self.scouts[i].turning is None
                &&& world.cell_at(from) == Some(Cell::Walkable)
            },
            Event::ScoutReports { i } => 0 <= i < self.scouts.len(),
            Event::CollectorReports { i } => 0 <= i < self.collectors.len(),
            Event::BaseSteps { moves, unloads, .. } => {
                &&& 0 <= moves <= self.moves.len()
                &&& 0 <= unloads <= self.in_flight.len()
                &&& self.app.tick < u64::MAX
            },
        }
    }

    /// The simulation after a step of the base.
    pub open spec fn booked(self, moves: int, unloads: int, reports: Seq<ScoutMessage>) -> SimulationView {
        base_tick(self.sim, reports, self.in_flight.take(unloads), self.app.fleet.moved_all(self.moves.take(moves)))
    }

    /// The mission after an event.
    pub open spec fn after(self, e: Event) -> Mission {
        let world = self.app.world;
        match e {
            Event::CollectorTicks { i, next, after } => Mission {
                sim: after,
                collectors: self.collectors.update(i, next),
                in_flight: in_flight_after(self.in_flight, self.collectors[i], next),
                ..self
            },
            Event::CollectorSettles { i, from, occ } => {
                let c = self.collectors[i];
                let position = resolved(occ, world, from, c.position);
                Mission { collectors: self.collectors.update(i, CollectorView { position, ..c }), ..self }
            },
            Event::ScoutTicks { i, next } => Mission { scouts: self.scouts.update(i, next), ..self },
            Event::ScoutTurns { i, next, .. } => Mission { scouts: self.scouts.update(i, next), ..self },
            Event::ScoutSettles { i, from, occ } => {
                let scout = self.scouts[i];
                let position = resolved(occ, world, from, scout.position);
                Mission { scouts: self.scouts.update(i, ScoutView { position, ..scout }), ..self }
            },
            Event::ScoutReports { i } => Mission {
                moves: self.moves.push((self.scouts[i].id, self.scouts[i].position)),
                ..self
            },
            Event::CollectorReports { i } => Mission {
                moves: self.moves.push((self.collectors[i].id, self.collectors[i].position)),
                ..self
            },
            Event::BaseSteps { moves, unloads, reports } => {
                let sim = self.booked(moves, unloads, reports);
                Mission {
                    app: self.app.stepped(self.moves.take(moves), sim),
                    sim,
                    moves: self.moves.skip(moves),
                    in_flight: self.in_flight.skip(unloads),
                    ..self
                }
            },
        }
    }

    /// The mission after several events, in order.
    pub open spec fn run(self, events: Seq<Event>) -> Mission
        decreases events.len(),
    {
        if events.len() == 0 {
            self
        } else {
            self.run(events.drop_last()).after(events.last())
        }
    }

    /// Whether the events can happen one after the other.
    pub open spec fn can_run(self, events: Seq<Event>) -> bool
        decreases events.len(),
    {
        events.len() > 0 ==> self.can_run(events.drop_last()) && self.run(events.drop_last()).may(events.last())
    }

    /// What is true of a mission at every moment.
    pub open spec fn sound(self) -> bool {
        let world = self.app.world;
        &&& self.app.wf()
        &&& self.sim.wf()
        &&& self.sim.world == world
        &&& accounted(self.sim, self.collectors, self.in_flight) <= self.app.initial_total
        &&& self.app.inventory == self.sim.inventory
        &&& self.sim.total() <= self.app.remaining
        &&& self.sim.delivered() + self.app.remaining <= self.app.initial_total
        &&& covered(self.app.revealed, self.sim.revealed)
        &&& covered(self.app.discovered, self.sim.discovered)
        &&& self.scouts.len() == NUM_SCOUTS
        &&& forall|i: int| 0 <= i < self.scouts.len() ==> self.scout_sound(#[trigger] self.scouts[i])
        &&& self.collectors.len() == NUM_COLLECTORS
        &&& forall|i: int| 0 <= i < self.collectors.len() ==> self.collector_sound(#[trigger] self.collectors[i])
        &&& forall|i: int|
            0 <= i < self.moves.len() ==> world.cell_at((#[trigger] self.moves[i]).1) == Some(Cell::Walkable)
        &&& all_walkable(world, self.app.fleet.scouts)
        &&& all_walkable(world, self.app.fleet.collectors)
    }

    /// What is true of every scout.
    pub open spec fn scout_sound(self, scout: ScoutView) -> bool {
        scout.wf() && scout.knows(self.app.world) && self.app.world.grid().is_free(scout.position)
    }

    /// What is true of every collector.
    pub open spec fn collector_sound(self, c: CollectorView) -> bool {
        c.wf() && c.stands_in(self.app.world) && c.sorted_for(self.sim)
    }
}

/// The walkable cells are those that a robot may enter.
proof fn lemma_walkable(world: WorldView, p: Position)
    requires
        world.wf(),
    ensures
        world.grid().is_free(p) == (world.cell_at(p) == Some(Cell::Walkable)),
{
    if world.holds(p) {
        lemma_flat(world.width as int, world.height as int, p);
    }
}

proof fn lemma_begun_is_sound(m: Mission)
    requires
        m.begun(),
    ensures
        m.sound(),
{
    let world = m.app.world;
    let started = SimulationView::started(world);
    law_mission_starts_balanced(world, m.collectors);
    assert(m.in_flight =~= Seq::empty());
    lemma_walkable(world, world.base);
    assert(accounted(m.sim, m.collectors, m.in_flight) == accounted(started, m.collectors, Seq::empty()));
    assert forall|i: int| 0 <= i < m.collectors.len() implies m.collector_sound(#[trigger] m.collectors[i]) by {}
}

/// A collector's tick keeps a mission sound.
proof fn lemma_collector_ticks(m: Mission, i: int, next: CollectorView, after: SimulationView)
    requires
        m.sound(),
        m.may(Event::CollectorTicks { i, next, after }),
    ensures
        m.after(Event::CollectorTicks { i, next, after }).sound(),
{
    let n = m.after(Event::CollectorTicks { i, next, after });
    let c = m.collectors[i];
    assert(m.collector_sound(c));
    law_tick_keeps_footing(c, m.sim, next, after);
    law_tick_keeps_units(c, m.sim, next, after);
    law_tick_balances(m.sim, m.collectors, m.in_flight, i, next, after);
    law_one_unit_a_tick(c, m.sim, next, after);
    assert forall|k: int| 0 <= k < n.collectors.len() implies n.collector_sound(#[trigger] n.collectors[k]) by {
        if k != i {
            assert(m.collector_sound(m.collectors[k]));
            law_others_stay_sorted(m.collectors[k], c, m.sim, next, after);
        }
    }
    assert forall|k: int| 0 <= k < n.scouts.len() implies n.scout_sound(#[trigger] n.scouts[k]) by {
        assert(m.scout_sound(m.scouts[k]));
    }
}

/// A collector that gives way keeps a mission sound.
proof fn lemma_collector_settles(m: Mission, i: int, from: Position, occ: OccupancyView)
    requires
        m.sound(),
        m.may(Event::CollectorSettles { i, from, occ }),
    ensures
        m.after(Event::CollectorSettles { i, from, occ }).sound(),
{
    let n = m.after(Event::CollectorSettles { i, from, occ });
    let world = m.app.world;
    let c = m.collectors[i];
    assert(m.collector_sound(c));
    lemma_walkable(world, from);
    law_collision_keeps_footing(c, world, occ, from);
    lemma_carried_update(m.collectors, i, n.collectors[i]);
    assert forall|k: int| 0 <= k < n.collectors.len() implies n.collector_sound(#[trigger] n.collectors[k]) by {
        assert(m.collector_sound(m.collectors[k]));
    }
    assert forall|k: int| 0 <= k < n.scouts.len() implies n.scout_sound(#[trigger] n.scouts[k]) by {
        assert(m.scout_sound(m.scouts[k]));
    }
}

/// Whatever a scout does that leaves it sound keeps a mission sound.
proof fn lemma_scout_changes(m: Mission, i: int, next: ScoutView)
    requires
        m.sound(),
        0 <= i < m.scouts.len(),
        m.scout_sound(next),
    ensures
        (Mission { scouts: m.scouts.update(i, next), ..m }).sound(),
{
    let n = Mission { scouts: m.scouts.update(i, next), ..m };
    assert forall|k: int| 0 <= k < n.scouts.len() implies n.scout_sound(#[trigger] n.scouts[k]) by {
        if k != i {
            assert(m.scout_sound(m.scouts[k]));
        }
    }
    assert forall|k: int| 0 <= k < n.collectors.len() implies n.collector_sound(#[trigger] n.collectors[k]) by {
        assert(m.collector_sound(m.collectors[k]));
    }
}

/// A scout that gives way stays sound.
proof fn lemma_scout_settles(m: Mission, i: int, from: Position, occ: OccupancyView)
    requires
        m.sound(),
        m.may(Event::ScoutSettles { i, from, occ }),
    ensures
        m.after(Event::ScoutSettles { i, from, occ }).sound(),
{
    let world = m.app.world;
    let scout = m.scouts[i];
    assert(m.scout_sound(scout));
    let position = resolved(occ, world, from, scout.position);
    let next = ScoutView { position, ..scout };
    lemma_walkable(world, scout.position);
    law_resolve_stays_walkable(occ, world, from, scout.position);
    lemma_walkable(world, position);
    assert(next.knows(world)) by {
        assert forall|k: int| 0 <= k < next.explored.len() && #[trigger] next.explored[k] implies next.obstacle[k] == (
        world.cells[k] == Cell::Obstacle) by {
            assert(scout.explored[k]);
        }
    }
    lemma_scout_changes(m, i, next);
}

/// A reported position keeps a mission sound.
proof fn lemma_reports(m: Mission, id: u16, position: Position)
    requires
        m.sound(),
        m.app.world.grid().is_free(position),
    ensures
        (Mission { moves: m.moves.push((id, position)), ..m }).sound(),
{
    let n = Mission { moves: m.moves.push((id, position)), ..m };
    lemma_walkable(m.app.world, position);
    assert forall|k: int| 0 <= k < n.moves.len() implies n.app.world.cell_at((#[trigger] n.moves[k]).1) == Some(
        Cell::Walkable,
    ) by {
        if k < m.moves.len() {
            assert(n.moves[k] == m.moves[k]);
        }
    }
    assert forall|k: int| 0 <= k < n.scouts.len() implies n.scout_sound(#[trigger] n.scouts[k]) by {
        assert(m.scout_sound(m.scouts[k]));
    }
    assert forall|k: int| 0 <= k < n.collectors.len() implies n.collector_sound(#[trigger] n.collectors[k]) by {
        assert(m.collector_sound(m.collectors[k]));
    }
}

/// Reports of walkable positions keep a fleet on walkable ground.
proof fn lemma_moved_all(world: WorldView, fleet: Fleet, moves: Seq<(u16, Position)>)
    requires
        fleet.scouts.len() == NUM_SCOUTS,
        fleet.collectors.len() == NUM_COLLECTORS,
        all_walkable(world, fleet.scouts),
        all_walkable(world, fleet.collectors),
        forall|i: int| 0 <= i < moves.len() ==> world.cell_at((#[trigger] moves[i]).1) == Some(Cell::Walkable),
    ensures
        fleet.moved_all(moves).scouts.len() == NUM_SCOUTS,
        fleet.moved_all(moves).collectors.len() == NUM_COLLECTORS,
        all_walkable(world, fleet.moved_all(moves).scouts),
        all_walkable(world, fleet.moved_all(moves).collectors),
    decreases moves.len(),
{
    if moves.len() > 0 {
        let front = moves.drop_last();
        assert forall|i: int| 0 <= i < front.len() implies world.cell_at((#[trigger] front[i]).1) == Some(
            Cell::Walkable,
        ) by {
            assert(front[i] == moves[i]);
        }
        lemma_moved_all(world, fleet, front);
        assert(world.cell_at(moves[moves.len() - 1].1) == Some(Cell::Walkable));
    }
}

/// A bitmap of limited size that covers another counts at least as much.
proof fn lemma_counts(a: Seq<bool>, b: Seq<bool>)
    requires
        covered(a, b),
        b.len() <= usize::MAX,
    ensures
        count_true(a) as usize <= count_true(b) as usize,
{
    lemma_count_monotone(a, b);
    lemma_count_bound(b);
}

/// What a step of the base does to the metrics, and that it keeps a mission
/// sound.
pub proof fn law_step_moves_metrics_forward(m: Mission, moves: int, unloads: int, reports: Seq<ScoutMessage>)
    requires
        m.sound(),
        m.may(Event::BaseSteps { moves, unloads, reports }),
    ensures
        ({
            let n = m.after(Event::BaseSteps { moves, unloads, reports });
            &&& n.sound()
            &&& n.app == m.app.stepped(m.moves.take(moves), n.sim)
            &&& n.app.world == m.app.world
            &&& moved_on(m.app.measured(), n.app.measured(), 1)
        }),
{
    let n = m.after(Event::BaseSteps { moves, unloads, reports });
    let world = m.app.world;
    let read = m.in_flight.take(unloads);
    let fleet = m.app.fleet.moved_all(m.moves.take(moves));
    lemma_units_split(m.in_flight, unloads);
    law_base_tick_only_adds(m.sim, reports, read, fleet);
    assert forall|k: int| 0 <= k < m.moves.take(moves).len() implies world.cell_at(
        (#[trigger] m.moves.take(moves)[k]).1,
    ) == Some(Cell::Walkable) by {
        assert(m.moves.take(moves)[k] == m.moves[k]);
    }
    lemma_moved_all(world, m.app.fleet, m.moves.take(moves));
    assert forall|k: int| 0 <= k < n.moves.len() implies world.cell_at((#[trigger] n.moves[k]).1) == Some(
        Cell::Walkable,
    ) by {
        assert(n.moves[k] == m.moves[k + moves]);
    }
    assert forall|k: int| 0 <= k < n.scouts.len() implies n.scout_sound(#[trigger] n.scouts[k]) by {
        assert(m.scout_sound(m.scouts[k]));
    }
    assert forall|k: int| 0 <= k < n.collectors.len() implies n.collector_sound(#[trigger] n.collectors[k]) by {
        assert(m.collector_sound(m.collectors[k]));
        if let Some(t) = m.collectors[k].target {
            assert forall|j: int| n.sim.stands_at(j, t) == m.sim.stands_at(j, t) by {}
            assert(n.sim.stock(t) == m.sim.stock(t));
        }
    }
    law_step_keeps_order(m.app, m.moves.take(moves), n.sim);
    law_resources_fit_the_map(world);
    lemma_counts(m.app.revealed, n.app.revealed);
    lemma_counts(m.app.discovered, n.app.discovered);
}

/// Whatever happens keeps a mission sound, and the map as it is.
proof fn lemma_event_keeps(m: Mission, e: Event)
    requires
        m.sound(),
        m.may(e),
    ensures
        m.after(e).sound(),
        m.after(e).app.world == m.app.world,
        !(e is BaseSteps) ==> m.after(e).app == m.app,
{
    match e {
        Event::CollectorTicks { i, next, after } => lemma_collector_ticks(m, i, next, after),
        Event::CollectorSettles { i, from, occ } => lemma_collector_settles(m, i, from, occ),
        Event::ScoutTicks { i, next } => {
            assert(m.scout_sound(m.scouts[i]));
            law_scout_tick_keeps_footing(m.scouts[i], m.app.world, next);
            lemma_scout_changes(m, i, next);
        },
        Event::ScoutTurns { i, penalty, inside, next } => {
            assert(m.scout_sound(m.scouts[i]));
            law_scout_turn_keeps_footing(m.scouts[i], m.app.world, penalty, inside, next);
            lemma_scout_changes(m, i, next);
        },
        Event::ScoutSettles { i, from, occ } => lemma_scout_settles(m, i, from, occ),
        Event::ScoutReports { i } => {
            assert(m.scout_sound(m.scouts[i]));
            lemma_reports(m, m.scouts[i].id, m.scouts[i].position);
        },
        Event::CollectorReports { i } => {
            assert(m.collector_sound(m.collectors[i]));
            lemma_reports(m, m.collectors[i].id, m.collectors[i].position);
        },
        Event::BaseSteps { moves, unloads, reports } => law_step_moves_metrics_forward(m, moves, unloads, reports),
    }
}

/// A mission stays sound through everything that can happen to it.
pub proof fn law_mission_stays_sound(start: Mission, events: Seq<Event>)
    requires
        start.begun(),
        start.can_run(events),
    ensures
        start.run(events).sound(),
{
    lemma_begun_is_sound(start);
    lemma_run_keeps(start, events);
}

proof fn lemma_run_keeps(m: Mission, events: Seq<Event>)
    requires
        m.sound(),
        m.can_run(events),
    ensures
        ({
            let n = m.run(events);
            &&& n.sound()
            &&& n.app.world == m.app.world
            &&& moved_on(m.app.measured(), n.app.measured(), steps(events))
        }),
    decreases events.len(),
{
    if events.len() > 0 {
        let before = m.run(events.drop_last());
        lemma_run_keeps(m, events.drop_last());
        lemma_event_keeps(before, events.last());
        if let Event::BaseSteps { moves, unloads, reports } = events.last() {
            law_step_moves_metrics_forward(before, moves, unloads, reports);
        }
    }
}

/// From any moment of a mission on, and over any number of steps: each step
/// counts one tick, the total stays, the units at the base never become fewer
/// nor those on the map more, both together never exceed the total, and what is
/// revealed or discovered stays so.
pub proof fn law_collection_never_decreases(start: Mission, before: Seq<Event>, events: Seq<Event>)
    requires
        start.begun(),
        start.can_run(before),
        start.run(before).can_run(events),
    ensures
        moved_on(
            start.run(before).app.measured(),
            start.run(before).run(events).app.measured(),
            steps(events),
        ),
{
    law_mission_stays_sound(start, before);
    lemma_run_keeps(start.run(before), events);
}

/// At every moment of a mission the base knows the positions of all its scouts
/// and collectors, each of them is a walkable cell, and the map is the one that
/// the mission began with.
pub proof fn law_robots_stay_on_walkable_cells(start: Mission, events: Seq<Event>)
    requires
        start.begun(),
        start.can_run(events),
    ensures
        ({
            let app = start.run(events).app;
            &&& app.world == start.app.world
            &&& app.fleet.scouts.len() == NUM_SCOUTS
            &&& app.fleet.collectors.len() == NUM_COLLECTORS
            &&& all_walkable(app.world, app.fleet.scouts)
            &&& all_walkable(app.world, app.fleet.collectors)
        }),
{
    lemma_begun_is_sound(start);
    lemma_run_keeps(start, events);
}

} // verus!
