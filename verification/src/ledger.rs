//! The books of a whole mission: units on the map, in cargo holds, in messages
//! on their way, and in the base.

use crate::collector::{law_tick_keeps_units, units};
use crate::collector::{CollectorMessage, CollectorState, CollectorView};
use crate::simulation::{lemma_fresh_total, sum_quantity, ResourceStock, SimulationView};
use crate::world::{ResourceKind, WorldView};
use vstd::prelude::*;

verus! {

/// The units that collectors carry, together.
pub open spec fn carried(collectors: Seq<CollectorView>) -> nat
    decreases collectors.len(),
{
    if collectors.len() == 0 {
        0
    } else {
        carried(collectors.drop_last()) + collectors.last().cargo as nat
    }
}

/// All units there are: on the map, in cargo holds, in messages on their way
/// to the base, and at the base.
pub open spec fn accounted(sim: SimulationView, collectors: Seq<CollectorView>, in_flight: Seq<CollectorMessage>) -> nat {
    sim.total() + carried(collectors) + units(in_flight) + sim.delivered()
}

/// The messages on their way after a collector's tick: one more, if the
/// channel took one.
pub open spec fn in_flight_after(
    in_flight: Seq<CollectorMessage>,
    c: CollectorView,
    next: CollectorView,
) -> Seq<CollectorMessage> {
    if next.taken == c.taken {
        in_flight
    } else {
        in_flight.push(next.taken.last())
    }
}

/// Exchanging one collector changes the sum by what the two carry.
pub proof fn lemma_carried_update(collectors: Seq<CollectorView>, i: int, next: CollectorView)
    requires
        0 <= i < collectors.len(),
    ensures
        carried(collectors.update(i, next)) == carried(collectors) - collectors[i].cargo + next.cargo,
    decreases collectors.len(),
{
    let changed = collectors.update(i, next);
    if i == collectors.len() - 1 {
        assert(changed.drop_last() =~= collectors.drop_last());
    } else {
        lemma_carried_update(collectors.drop_last(), i, next);
        assert(changed.drop_last() =~= collectors.drop_last().update(i, next));
    }
}

proof fn lemma_carried_none(collectors: Seq<CollectorView>)
    requires
        forall|i: int| 0 <= i < collectors.len() ==> (#[trigger] collectors[i]).cargo == 0,
    ensures
        carried(collectors) == 0,
    decreases collectors.len(),
{
    if collectors.len() > 0 {
        assert forall|i: int| 0 <= i < collectors.drop_last().len() implies (#[trigger] collectors.drop_last()[i]).cargo
            == 0 by {
            assert(collectors[i].cargo == 0);
        }
        lemma_carried_none(collectors.drop_last());
        assert(collectors[collectors.len() - 1].cargo == 0);
    }
}

proof fn lemma_units_push(messages: Seq<CollectorMessage>, message: CollectorMessage)
    ensures
        units(messages.push(message)) == units(messages) + message.amount,
{
    assert(messages.push(message).drop_last() =~= messages);
}

proof fn lemma_units_first(messages: Seq<CollectorMessage>)
    requires
        messages.len() > 0,
    ensures
        units(messages) == messages[0].amount + units(messages.drop_first()),
    decreases messages.len(),
{
    if messages.len() == 1 {
        assert(messages.drop_last() =~= Seq::empty());
        assert(messages.drop_first() =~= Seq::empty());
    } else {
        lemma_units_first(messages.drop_last());
        assert(messages.drop_last().drop_first() =~= messages.drop_first().drop_last());
    }
}

/// The units of the first messages and of the others add up.
pub proof fn lemma_units_split(messages: Seq<CollectorMessage>, k: int)
    requires
        0 <= k <= messages.len(),
    ensures
        units(messages.take(k)) + units(messages.skip(k)) == units(messages),
    decreases k,
{
    if k == 0 {
        assert(messages.take(0) =~= Seq::empty());
        assert(messages.skip(0) =~= messages);
    } else {
        lemma_units_first(messages);
        lemma_units_first(messages.take(k));
        lemma_units_split(messages.drop_first(), k - 1);
        assert(messages.take(k).drop_first() =~= messages.drop_first().take(k - 1));
        assert(messages.skip(k) =~= messages.drop_first().skip(k - 1));
    }
}

/// At the start every unit is on the map.
pub proof fn law_mission_starts_balanced(world: WorldView, collectors: Seq<CollectorView>)
    requires
        forall|i: int| 0 <= i < collectors.len() ==> (#[trigger] collectors[i]).cargo == 0,
    ensures
        accounted(SimulationView::started(world), collectors, Seq::empty()) == sum_quantity(world.resources),
{
    lemma_fresh_total(world.resources);
    lemma_carried_none(collectors);
}

/// A collector's tick never makes a unit, and keeps them all unless the channel
/// refuses the announcement of a cargo: then exactly that cargo is lost.
pub proof fn law_tick_balances(
    sim: SimulationView,
    collectors: Seq<CollectorView>,
    in_flight: Seq<CollectorMessage>,
    i: int,
    next: CollectorView,
    after: SimulationView,
)
    requires
        sim.wf(),
        0 <= i < collectors.len(),
        collectors[i].wf(),
        collectors[i].stats.ticks < u64::MAX,
        collectors[i].sorted_for(sim),
        collectors[i].ticked(sim, next, after),
    ensures
        ({
            let c = collectors[i];
            let flying = in_flight_after(in_flight, c, next);
            let now = accounted(after, collectors.update(i, next), flying);
            let refused = next.offered != c.offered && next.taken == c.taken;
            now == accounted(sim, collectors, in_flight) - if refused {
                c.cargo as int
            } else {
                0
            }
        }),
{
    let c = collectors[i];
    law_tick_keeps_units(c, sim, next, after);
    lemma_carried_update(collectors, i, next);
    if let Some(message) = c.counted().announcement() {
        lemma_units_push(c.offered, message);
        lemma_units_push(in_flight, message);
        assert(c.taken.push(message).len() != c.taken.len());
        assert(c.offered.push(message).len() != c.offered.len());
        assert(c.taken.push(message).last() == message);
    }
}

/// Unloading a message that arrived at the base keeps every unit.
pub proof fn law_delivery_balances(
    sim: SimulationView,
    collectors: Seq<CollectorView>,
    in_flight: Seq<CollectorMessage>,
)
    requires
        in_flight.len() > 0,
        sim.held(in_flight[0].kind) + in_flight[0].amount <= u64::MAX,
    ensures
        accounted(
            sim.unloaded(in_flight[0].kind, in_flight[0].amount),
            collectors,
            in_flight.drop_first(),
        ) == accounted(sim, collectors, in_flight),
{
    lemma_units_first(in_flight);
}

/// What is at the base and what is left on the map together never exceed the
/// books, and once the books hold what was placed and nothing is on its way,
/// an empty map means that everything placed is at the base.
pub proof fn law_books_bound_the_inventory(
    sim: SimulationView,
    collectors: Seq<CollectorView>,
    in_flight: Seq<CollectorMessage>,
    placed: nat,
)
    requires
        accounted(sim, collectors, in_flight) <= placed,
    ensures
        sim.delivered() + sim.total() <= placed,
        accounted(sim, collectors, in_flight) == placed && sim.total() == 0 && carried(collectors) == 0 && units(
            in_flight,
        ) == 0 ==> sim.delivered() == placed,
{
}

/// The units of one kind left in stocks.
pub open spec fn left_of(stocks: Seq<ResourceStock>, kind: ResourceKind) -> nat
    decreases stocks.len(),
{
    if stocks.len() == 0 {
        0
    } else {
        left_of(stocks.drop_last(), kind) + if stocks.last().kind == kind {
            stocks.last().remaining as nat
        } else {
            0
        }
    }
}

/// The units of one kind that messages announce.
pub open spec fn units_of(messages: Seq<CollectorMessage>, kind: ResourceKind) -> nat
    decreases messages.len(),
{
    if messages.len() == 0 {
        0
    } else {
        units_of(messages.drop_last(), kind) + if messages.last().kind == kind {
            messages.last().amount as nat
        } else {
            0
        }
    }
}

/// The units of one kind that a collector carries.
pub open spec fn cargo_of(c: CollectorView, kind: ResourceKind) -> nat {
    if c.cargo_kind == Some(kind) {
        c.cargo as nat
    } else {
        0
    }
}

proof fn lemma_left_update(stocks: Seq<ResourceStock>, i: int, stock: ResourceStock, kind: ResourceKind)
    requires
        0 <= i < stocks.len(),
        stock.kind == stocks[i].kind,
    ensures
        left_of(stocks.update(i, stock), kind) == left_of(stocks, kind) + if stock.kind == kind {
            stock.remaining - stocks[i].remaining
        } else {
            0
        },
    decreases stocks.len(),
{
    let next = stocks.update(i, stock);
    if i == stocks.len() - 1 {
        assert(next.drop_last() =~= stocks.drop_last());
    } else {
        lemma_left_update(stocks.drop_last(), i, stock, kind);
        assert(next.drop_last() =~= stocks.drop_last().update(i, stock));
    }
}

/// Of each kind, a collector's tick neither makes nor loses units: what is left
/// on the map, what it carries and what it has announced add up to the same.
pub proof fn law_tick_keeps_units_of_each_kind(
    c: CollectorView,
    sim: SimulationView,
    next: CollectorView,
    after: SimulationView,
    kind: ResourceKind,
)
    requires
        c.wf(),
        sim.wf(),
        c.stats.ticks < u64::MAX,
        c.sorted_for(sim),
        c.ticked(sim, next, after),
    ensures
        left_of(after.stocks, kind) + cargo_of(next, kind) + units_of(next.offered, kind) == left_of(sim.stocks, kind)
            + cargo_of(c, kind) + units_of(c.offered, kind),
        after.inventory == sim.inventory,
{
    match c.state {
        CollectorState::Collecting => {
            if c.cargo < c.capacity && c.target == Some(c.position) {
                if let Some(i) = sim.stock_index(c.position) {
                    assert(sim.stands_at(i, c.position));
                    if sim.stocks[i].remaining > 0 {
                        lemma_left_update(sim.stocks, i, after.stocks[i], kind);
                        assert(sim.stock(c.position) is Some);
                    }
                }
            }
        },
        CollectorState::Unloading => {
            if let Some(message) = c.counted().announcement() {
                assert(c.offered.push(message).drop_last() =~= c.offered);
            }
        },
        _ => {},
    }
}

/// Every message adds its amount to the units that messages announce, and no
/// message announces nothing.
pub proof fn law_messages_add_up(messages: Seq<CollectorMessage>, message: CollectorMessage, kind: ResourceKind)
    ensures
        units(Seq::<CollectorMessage>::empty()) == 0,
        units(messages.push(message)) == units(messages) + message.amount,
        units_of(messages.push(message), kind) == units_of(messages, kind) + if message.kind == kind {
            message.amount as int
        } else {
            0
        },
        units(messages) == units_of(messages, ResourceKind::Energy) + units_of(messages, ResourceKind::Crystal),
    decreases messages.len(),
{
    lemma_units_push(messages, message);
    assert(messages.push(message).drop_last() =~= messages);
    if messages.len() > 0 {
        law_messages_add_up(messages.drop_last(), messages.last(), kind);
    }
}

/// Every collector adds its cargo to what is carried.
pub proof fn law_cargo_adds_up(collectors: Seq<CollectorView>, c: CollectorView)
    ensures
        carried(Seq::<CollectorView>::empty()) == 0,
        carried(collectors.push(c)) == carried(collectors) + c.cargo,
{
    assert(collectors.push(c).drop_last() =~= collectors);
}

/// The units of one kind that collectors carry, together.
pub open spec fn carried_of(collectors: Seq<CollectorView>, kind: ResourceKind) -> nat
    decreases collectors.len(),
{
    if collectors.len() == 0 {
        0
    } else {
        carried_of(collectors.drop_last(), kind) + cargo_of(collectors.last(), kind)
    }
}

/// The units of one kind at the base.
pub open spec fn stored_of(sim: SimulationView, kind: ResourceKind) -> nat {
    match kind {
        ResourceKind::Energy => sim.inventory.energy as nat,
        ResourceKind::Crystal => sim.inventory.crystals as nat,
    }
}

/// All units of one kind there are: on the map, in cargo holds, in messages on
/// their way, and at the base.
pub open spec fn accounted_of(
    sim: SimulationView,
    collectors: Seq<CollectorView>,
    in_flight: Seq<CollectorMessage>,
    kind: ResourceKind,
) -> nat {
    left_of(sim.stocks, kind) + carried_of(collectors, kind) + units_of(in_flight, kind) + stored_of(sim, kind)
}

proof fn lemma_carried_of_update(collectors: Seq<CollectorView>, i: int, next: CollectorView, kind: ResourceKind)
    requires
        0 <= i < collectors.len(),
    ensures
        carried_of(collectors.update(i, next), kind) == carried_of(collectors, kind) - cargo_of(collectors[i], kind)
            + cargo_of(next, kind),
    decreases collectors.len(),
{
    let changed = collectors.update(i, next);
    if i == collectors.len() - 1 {
        assert(changed.drop_last() =~= collectors.drop_last());
    } else {
        lemma_carried_of_update(collectors.drop_last(), i, next, kind);
        assert(changed.drop_last() =~= collectors.drop_last().update(i, next));
    }
}

/// Of each kind, a collector's tick keeps every unit unless the channel refuses
/// the announcement of a cargo of that kind: then exactly that cargo is lost.
pub proof fn law_tick_balances_each_kind(
    sim: SimulationView,
    collectors: Seq<CollectorView>,
    in_flight: Seq<CollectorMessage>,
    i: int,
    next: CollectorView,
    after: SimulationView,
    kind: ResourceKind,
)
    requires
        sim.wf(),
        0 <= i < collectors.len(),
        collectors[i].wf(),
        collectors[i].stats.ticks < u64::MAX,
        collectors[i].sorted_for(sim),
        collectors[i].ticked(sim, next, after),
    ensures
        ({
            let c = collectors[i];
            let flying = in_flight_after(in_flight, c, next);
            let now = accounted_of(after, collectors.update(i, next), flying, kind);
            let refused = next.offered != c.offered && next.taken == c.taken;
            now == accounted_of(sim, collectors, in_flight, kind) - if refused {
                cargo_of(c, kind) as int
            } else {
                0
            }
        }),
{
    let c = collectors[i];
    law_tick_keeps_units_of_each_kind(c, sim, next, after, kind);
    lemma_carried_of_update(collectors, i, next, kind);
    if let Some(message) = c.counted().announcement() {
        law_messages_add_up(c.offered, message, kind);
        law_messages_add_up(in_flight, message, kind);
        assert(c.taken.push(message).len() != c.taken.len());
        assert(c.offered.push(message).len() != c.offered.len());
        assert(c.taken.push(message).last() == message);
    }
}

/// Of each kind, unloading a message that arrived at the base keeps every unit.
pub proof fn law_delivery_balances_each_kind(
    sim: SimulationView,
    collectors: Seq<CollectorView>,
    in_flight: Seq<CollectorMessage>,
    kind: ResourceKind,
)
    requires
        in_flight.len() > 0,
        sim.inventory.energy + in_flight[0].amount <= u64::MAX,
        sim.inventory.crystals + in_flight[0].amount <= u64::MAX,
    ensures
        accounted_of(
            sim.unloaded(in_flight[0].kind, in_flight[0].amount),
            collectors,
            in_flight.drop_first(),
            kind,
        ) == accounted_of(sim, collectors, in_flight, kind),
{
    lemma_units_of_first(in_flight, kind);
}

proof fn lemma_units_of_first(messages: Seq<CollectorMessage>, kind: ResourceKind)
    requires
        messages.len() > 0,
    ensures
        units_of(messages, kind) == units_of(messages.drop_first(), kind) + if messages[0].kind == kind {
            messages[0].amount as int
        } else {
            0
        },
    decreases messages.len(),
{
    if messages.len() == 1 {
        assert(messages.drop_last() =~= Seq::empty());
        assert(messages.drop_first() =~= Seq::empty());
    } else {
        lemma_units_of_first(messages.drop_last(), kind);
        assert(messages.drop_last().drop_first() =~= messages.drop_first().drop_last());
    }
}

} // verus!
