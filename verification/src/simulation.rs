//! Shared simulation state: resource stocks, base inventory and fog of war.

use crate::grid::{adjacent, flat, law_radius_is_a_circle, unflat, within};
use crate::grid::{flat_index, lemma_flat, lemma_flat_injective, lemma_unflat};
use crate::tally::{count_true, fill, lemma_count_monotone};
use crate::world::{index_to_position, law_resources_fit_the_map, within_radius};
use crate::world::{Position, ResourceKind, ResourceNode, World, WorldView, MAX_QUANTITY, MIN_QUANTITY};
use vstd::arithmetic::div_mod::lemma_fundamental_div_mod_converse;
use vstd::prelude::*;

verus! {

/// Accumulated resources delivered to the base.
#[derive(Debug, Clone, Copy, PartialEq, Eq, Structural)]
pub struct BaseInventory {
    pub energy: u64,
    pub crystals: u64,
}

impl Default for BaseInventory {
    fn default() -> (inventory: Self)
        ensures
            inventory == (BaseInventory { energy: 0, crystals: 0 }),
    {
        BaseInventory { energy: 0, crystals: 0 }
    }
}

/// Mutable tracking of a single resource node on the map.
#[derive(Debug, Clone, Copy, PartialEq, Eq, Structural)]
pub struct ResourceStock {
    pub kind: ResourceKind,
    pub position: Position,
    pub remaining: u16,
    /// Original quantity at generation time (for depletion glow).
    pub initial: u16,
}

/// How much of the map is shown from the start.
#[derive(Debug, Clone, Copy, PartialEq, Eq, Structural)]
pub enum RevealMode {
    /// Fog of war: robots uncover the map.
    Normal,
    /// The terrain is visible, resources stay hidden until discovered.
    NoFog,
    /// Everything is visible, and no robots run.
    Full,
}

/// Owns the static world map plus the mutable resource / inventory state that
/// both scouts and collectors need to read and update during the simulation.
#[derive(Debug, Clone)]
pub struct Simulation {
    pub world: World,
    stocks: Vec<ResourceStock>,
    stock_at: Vec<Option<usize>>,
    pub base_inventory: BaseInventory,
    cells_revealed: Vec<bool>,
    resource_discovered: Vec<bool>,
}

/// What a simulation holds, as mathematics.
#[verifier::ext_equal]
pub struct SimulationView {
    pub world: WorldView,
    pub stocks: Seq<ResourceStock>,
    pub inventory: BaseInventory,
    pub revealed: Seq<bool>,
    pub discovered: Seq<bool>,
}

/// The radius around the base that is visible from the start.
pub const START_RADIUS: usize = 4;

/// The units left in the stocks, together.
pub open spec fn sum_remaining(stocks: Seq<ResourceStock>) -> nat
    decreases stocks.len(),
{
    if stocks.len() == 0 {
        0
    } else {
        sum_remaining(stocks.drop_last()) + stocks.last().remaining as nat
    }
}

/// The units that were placed on the map, together.
pub open spec fn sum_quantity(nodes: Seq<ResourceNode>) -> nat
    decreases nodes.len(),
{
    if nodes.len() == 0 {
        0
    } else {
        sum_quantity(nodes.drop_last()) + nodes.last().quantity as nat
    }
}

/// A fresh stock for each resource.
pub open spec fn fresh_stocks(nodes: Seq<ResourceNode>) -> Seq<ResourceStock> {
    Seq::new(
        nodes.len(),
        |i: int|
            ResourceStock {
                kind: nodes[i].kind,
                position: nodes[i].position,
                remaining: nodes[i].quantity,
                initial: nodes[i].quantity,
            },
    )
}

/// The bitmap with the cells of the map within `radius` of `center` revealed as
/// well.
pub open spec fn revealed_around(revealed: Seq<bool>, width: int, center: Position, radius: int) -> Seq<bool> {
    Seq::new(revealed.len(), |i: int| revealed[i] || within(center, unflat(width, i), radius))
}

/// Whether the cell at offset `(dx, dy)` from `center`, within `radius` of it
/// and in a column of the map, has row-major index `i`.
spec fn touches(width: int, center: Position, radius: int, dx: int, dy: int, i: int) -> bool {
    &&& -radius <= dx <= radius
    &&& -radius <= dy <= radius
    &&& dx * dx + dy * dy <= radius * radius
    &&& 0 <= center.x + dx < width
    &&& 0 <= center.y + dy
    &&& i == (center.y + dy) * width + (center.x + dx)
}

/// The offsets that touch a cell are those of the cells within the radius.
proof fn lemma_touches(width: int, height: int, center: Position, radius: int, i: int)
    requires
        0 < width <= usize::MAX,
        0 < height <= usize::MAX,
        0 <= radius,
        0 <= i < width * height,
    ensures
        within(center, unflat(width, i), radius) <==> exists|dx: int, dy: int|
            touches(width, center, radius, dx, dy, i),
{
    let p = unflat(width, i);
    lemma_unflat(width, height, i);
    if within(center, p, radius) {
        let dx = p.x - center.x;
        let dy = p.y - center.y;
        assert(-radius <= dx <= radius && -radius <= dy <= radius) by (nonlinear_arith)
            requires
                dx * dx + dy * dy <= radius * radius,
                0 <= radius,
        ;
        assert(touches(width, center, radius, dx, dy, i));
    }
    if exists|dx: int, dy: int| touches(width, center, radius, dx, dy, i) {
        let (dx, dy) = choose|dx: int, dy: int| touches(width, center, radius, dx, dy, i);
        lemma_fundamental_div_mod_converse(i, width, center.y + dy, center.x + dx);
        assert(p.x == center.x + dx && p.y == center.y + dy);
    }
}

/// The positions of the first `upto` stocks that are discovered and not empty.
pub open spec fn live_upto(stocks: Seq<ResourceStock>, discovered: Seq<bool>, upto: nat) -> Seq<Position>
    decreases upto,
{
    if upto == 0 {
        Seq::empty()
    } else {
        let before = live_upto(stocks, discovered, (upto - 1) as nat);
        if stocks[upto - 1].remaining > 0 && discovered[upto - 1] {
            before.push(stocks[upto - 1].position)
        } else {
            before
        }
    }
}

impl SimulationView {
    /// Whether stock number `i` stands at `p`.
    pub open spec fn stands_at(self, i: int, p: Position) -> bool {
        0 <= i < self.stocks.len() && self.stocks[i].position == p
    }

    /// The number of the stock at `p`, if there is one.
    pub open spec fn stock_index(self, p: Position) -> Option<int> {
        if exists|i: int| self.stands_at(i, p) {
            Some(choose|i: int| self.stands_at(i, p))
        } else {
            None
        }
    }

    /// The stock at `p`, if there is one.
    pub open spec fn stock(self, p: Position) -> Option<ResourceStock> {
        match self.stock_index(p) {
            Some(i) => Some(self.stocks[i]),
            None => None,
        }
    }

    /// Of each cell, in row-major order, the number of the stock there.
    pub open spec fn table(self) -> Seq<Option<usize>> {
        Seq::new(
            self.world.cells.len(),
            |c: int|
                match self.stock_index(unflat(self.world.width as int, c)) {
                    Some(i) => Some(i as usize),
                    None => None,
                },
        )
    }

    /// The units left at `p`.
    pub open spec fn remaining_at(self, p: Position) -> u16 {
        match self.stock(p) {
            Some(stock) => stock.remaining,
            None => 0,
        }
    }

    /// The units left on the map.
    pub open spec fn total(self) -> nat {
        sum_remaining(self.stocks)
    }

    /// The units delivered to the base.
    pub open spec fn delivered(self) -> nat {
        (self.inventory.energy + self.inventory.crystals) as nat
    }

    /// The positions of the stocks that are discovered and not empty.
    pub open spec fn live(self) -> Seq<Position> {
        live_upto(self.stocks, self.discovered, self.stocks.len())
    }

    /// What is true of every simulation.
    pub open spec fn wf(self) -> bool {
        &&& self.world.wf()
        &&& self.stocks.len() == self.world.resources.len()
        &&& forall|i: int|
            0 <= i < self.stocks.len() ==> {
                let stock = #[trigger] self.stocks[i];
                let node = self.world.resources[i];
                &&& stock.kind == node.kind
                &&& stock.position == node.position
                &&& stock.initial == node.quantity
                &&& stock.remaining <= stock.initial
            }
        &&& self.total() <= u64::MAX
        &&& self.revealed.len() == self.world.cells.len()
        &&& self.discovered.len() == self.stocks.len()
    }

    /// A simulation that has not run yet: every stock full, the surroundings
    /// of the base revealed and the resources there discovered.
    pub open spec fn started(world: WorldView) -> SimulationView {
        SimulationView {
            world,
            stocks: fresh_stocks(world.resources),
            inventory: BaseInventory { energy: 0, crystals: 0 },
            revealed: Seq::new(
                world.cells.len(),
                |i: int| within(world.base, unflat(world.width as int, i), START_RADIUS as int),
            ),
            discovered: Seq::new(
                world.resources.len(),
                |i: int| within(world.base, world.resources[i].position, START_RADIUS as int),
            ),
        }
    }

    /// One unit less at stock `i`.
    pub open spec fn taken_from(self, i: int) -> SimulationView {
        let stock = self.stocks[i];
        SimulationView {
            stocks: self.stocks.update(i, ResourceStock { remaining: (stock.remaining - 1) as u16, ..stock }),
            ..self
        }
    }

    /// `amount` more units of `kind` at the base.
    pub open spec fn unloaded(self, kind: ResourceKind, amount: u16) -> SimulationView {
        let inv = self.inventory;
        SimulationView {
            inventory: match kind {
                ResourceKind::Energy => BaseInventory { energy: (inv.energy + amount) as u64, ..inv },
                ResourceKind::Crystal => BaseInventory { crystals: (inv.crystals + amount) as u64, ..inv },
            },
            ..self
        }
    }

    /// The units of `kind` at the base.
    pub open spec fn held(self, kind: ResourceKind) -> u64 {
        match kind {
            ResourceKind::Energy => self.inventory.energy,
            ResourceKind::Crystal => self.inventory.crystals,
        }
    }

    /// The resource at `p` discovered, if there is one, and the cells around
    /// `p` revealed.
    pub open spec fn with_resource_seen(self, p: Position) -> SimulationView {
        SimulationView {
            discovered: match self.stock_index(p) {
                Some(i) => self.discovered.update(i, true),
                None => self.discovered,
            },
            revealed: revealed_around(self.revealed, self.world.width as int, p, 1),
            ..self
        }
    }

    /// The bitmap with one cell of the map revealed; a position off the map
    /// reveals nothing.
    pub open spec fn revealed_at(self, p: Position) -> Seq<bool> {
        if self.world.holds(p) {
            self.revealed.update(flat(self.world.width as int, p), true)
        } else {
            self.revealed
        }
    }

    /// One cell revealed.
    pub open spec fn with_cell_seen(self, p: Position) -> SimulationView {
        SimulationView { revealed: self.revealed_at(p), ..self }
    }

    /// The whole terrain revealed.
    pub open spec fn with_terrain_seen(self) -> SimulationView {
        SimulationView { revealed: Seq::new(self.revealed.len(), |i: int| true), ..self }
    }

    /// The whole terrain revealed and every resource discovered.
    pub open spec fn with_all_seen(self) -> SimulationView {
        SimulationView {
            revealed: Seq::new(self.revealed.len(), |i: int| true),
            discovered: Seq::new(self.discovered.len(), |i: int| true),
            ..self
        }
    }
}

impl View for Simulation {
    type V = SimulationView;

    closed spec fn view(&self) -> SimulationView {
        SimulationView {
            world: self.world@,
            stocks: self.stocks@,
            inventory: self.base_inventory,
            revealed: self.cells_revealed@,
            discovered: self.resource_discovered@,
        }
    }
}

/// The stock at a position is unique.
pub proof fn lemma_stock_index(sim: SimulationView, i: int)
    requires
        sim.wf(),
        0 <= i < sim.stocks.len(),
    ensures
        sim.stock_index(sim.stocks[i].position) == Some(i),
{
    let p = sim.stocks[i].position;
    assert(sim.stands_at(i, p));
    let j = choose|j: int| sim.stands_at(j, p);
    assert(sim.stocks[j].position == sim.world.resources[j].position);
    assert(sim.stocks[i].position == sim.world.resources[i].position);
    if i < j {
        assert(sim.world.resources[i].position != sim.world.resources[j].position);
    } else if j < i {
        assert(sim.world.resources[j].position != sim.world.resources[i].position);
    }
}

/// Stocks that stand where they stood are found where they were found.
proof fn lemma_same_places(a: SimulationView, b: SimulationView)
    requires
        a.stocks.len() == b.stocks.len(),
        forall|i: int| 0 <= i < a.stocks.len() ==> (#[trigger] a.stocks[i]).position == b.stocks[i].position,
    ensures
        forall|i: int, p: Position| #[trigger] b.stands_at(i, p) == a.stands_at(i, p),
{
}

/// Taking units from one stock changes the sum by as much.
pub proof fn lemma_sum_update(stocks: Seq<ResourceStock>, i: int, stock: ResourceStock)
    requires
        0 <= i < stocks.len(),
    ensures
        sum_remaining(stocks.update(i, stock)) == sum_remaining(stocks) - stocks[i].remaining + stock.remaining,
    decreases stocks.len(),
{
    let next = stocks.update(i, stock);
    if i == stocks.len() - 1 {
        assert(next.drop_last() =~= stocks.drop_last());
    } else {
        lemma_sum_update(stocks.drop_last(), i, stock);
        assert(next.drop_last() =~= stocks.drop_last().update(i, stock));
    }
}

/// Taking a unit from a stock leaves one unit less on the map, and every stock
/// where it is, with its kind.
pub proof fn law_taking_one_unit(sim: SimulationView, i: int)
    requires
        sim.wf(),
        0 <= i < sim.stocks.len(),
        sim.stocks[i].remaining > 0,
    ensures
        sim.taken_from(i).wf(),
        sim.taken_from(i).total() == sim.total() - 1,
        sim.taken_from(i).delivered() == sim.delivered(),
        forall|p: Position|
            match (#[trigger] sim.stock(p), sim.taken_from(i).stock(p)) {
                (Some(a), Some(b)) => a.kind == b.kind && a.position == b.position && a.initial == b.initial,
                (None, None) => true,
                _ => false,
            },
{
    let after = sim.taken_from(i);
    lemma_sum_update(sim.stocks, i, after.stocks[i]);
    lemma_same_places(sim, after);
    assert forall|p: Position|
        match (#[trigger] sim.stock(p), after.stock(p)) {
            (Some(a), Some(b)) => a.kind == b.kind && a.position == b.position && a.initial == b.initial,
            (None, None) => true,
            _ => false,
        } by {
        if exists|j: int| sim.stands_at(j, p) {
            let j = choose|j: int| sim.stands_at(j, p);
            assert(after.stands_at(j, p));
            lemma_stock_index(sim, j);
            lemma_stock_index(after, j);
        } else {
            assert forall|j: int| !after.stands_at(j, p) by {
                assert(!sim.stands_at(j, p));
            }
        }
    }
}

/// The sum over the first stocks is at most the sum over all.
proof fn lemma_sum_take(stocks: Seq<ResourceStock>, k: int)
    requires
        0 <= k <= stocks.len(),
    ensures
        sum_remaining(stocks.take(k)) <= sum_remaining(stocks),
    decreases stocks.len(),
{
    if k < stocks.len() {
        assert(stocks.drop_last().take(k) =~= stocks.take(k));
        lemma_sum_take(stocks.drop_last(), k);
    } else {
        assert(stocks.take(k) =~= stocks);
    }
}

/// Fresh stocks hold together what was placed.
pub proof fn lemma_fresh_total(nodes: Seq<ResourceNode>)
    ensures
        sum_remaining(fresh_stocks(nodes)) == sum_quantity(nodes),
    decreases nodes.len(),
{
    if nodes.len() > 0 {
        lemma_fresh_total(nodes.drop_last());
        assert(fresh_stocks(nodes).drop_last() =~= fresh_stocks(nodes.drop_last()));
    }
}

/// The units on a map lie between the least and the greatest quantity for each
/// resource.
pub proof fn lemma_quantity_bound(world: WorldView, upto: int)
    requires
        world.wf(),
        0 <= upto <= world.resources.len(),
    ensures
        upto * MIN_QUANTITY <= sum_quantity(world.resources.take(upto)) <= upto * MAX_QUANTITY,
    decreases upto,
{
    if upto > 0 {
        lemma_quantity_bound(world, upto - 1);
        assert(world.resources.take(upto).drop_last() =~= world.resources.take(upto - 1));
        assert(world.placed_well(world.resources[upto - 1]));
    }
}

impl Simulation {
    /// The lookup table of stocks agrees with the stocks.
    pub closed spec fn indexed(&self) -> bool {
        &&& self.world.wf()
        &&& self.stock_at@.len() == self.world@.cells.len()
        &&& forall|p: Position|
            #![trigger self.stock_at@[flat(self.world@.width as int, p)]]
            self.world@.holds(p) ==> match self.stock_at@[flat(self.world@.width as int, p)] {
                Some(i) => self@.stands_at(i as int, p),
                None => forall|i: int| !self@.stands_at(i, p),
            }
    }

    /// What is true of every simulation.
    pub open spec fn wf(&self) -> bool {
        self.indexed() && self@.wf()
    }

    /// Creates a new simulation from a freshly generated [`World`].
    ///
    /// Each resource node on the world is converted into a [`ResourceStock`]
    /// with its full initial quantity still available.
    pub fn new(world: World) -> (sim: Self)
        requires
            world.wf(),
            sum_quantity(world@.resources) <= u64::MAX,
        ensures
            sim.wf(),
            sim@ == SimulationView::started(world@),
    {
        let cell_count = world.cell_count();
        let width = world.width();
        let height = world.height();
        let base = world.base();
        let ghost view = world@;
        let ghost w = width as int;
        let ghost h = height as int;
        assert(8 * w <= w * h && 8 * h <= w * h) by (nonlinear_arith)
            requires
                8 <= w,
                8 <= h,
        ;
        let nodes = world.resources();
        let count = nodes.len();
        let mut stock_at: Vec<Option<usize>> = vec![None; cell_count];
        let mut stocks: Vec<ResourceStock> = Vec::with_capacity(count);
        for i in 0..count
            invariant
                view.wf(),
                w == width,
                h == height,
                w == view.width,
                h == view.height,
                count == view.resources.len(),
                nodes@ == view.resources,
                stocks@ == fresh_stocks(view.resources).take(i as int),
                stock_at@.len() == view.cells.len(),
                forall|j: int|
                    0 <= j < i ==> stock_at@[flat(w, (#[trigger] view.resources[j]).position)] == Some(j as usize),
                forall|c: int|
                    0 <= c < stock_at@.len() ==> match #[trigger] stock_at@[c] {
                        Some(j) => j < i && flat(w, view.resources[j as int].position) == c,
                        None => true,
                    },
        {
            let node = &nodes[i];
            assert(view.placed_well(view.resources[i as int]));
            let idx = flat_index(width, height, node.position);
            let ghost was = stock_at@;
            stock_at[idx] = Some(i);
            stocks.push(
                ResourceStock {
                    kind: node.kind,
                    position: node.position,
                    remaining: node.quantity,
                    initial: node.quantity,
                },
            );
            proof {
                assert(stocks@ =~= fresh_stocks(view.resources).take(i + 1));
                assert forall|j: int| 0 <= j < i + 1 implies stock_at@[flat(w, (#[trigger] view.resources[j]).position)]
                    == Some(j as usize) by {
                    assert(view.placed_well(view.resources[j]));
                    lemma_flat(w, h, view.resources[j].position);
                    if j < i {
                        assert(view.resources[j].position != view.resources[i as int].position);
                        if flat(w, view.resources[j].position) == idx {
                            lemma_flat_injective(w, h, view.resources[j].position, node.position);
                        }
                    }
                }
                assert forall|c: int| 0 <= c < stock_at@.len() implies match #[trigger] stock_at@[c] {
                    Some(j) => j < i + 1 && flat(w, view.resources[j as int].position) == c,
                    None => true,
                } by {
                    if c != idx {
                        assert(stock_at@[c] == was[c]);
                    }
                }
            }
        }
        assert(stocks@ =~= fresh_stocks(view.resources));

        let mut cells_revealed: Vec<bool> = Vec::with_capacity(cell_count);
        for i in 0..cell_count
            invariant
                view.wf(),
                w == width,
                h == height,
                w == view.width,
                h == view.height,
                8 * w <= w * h,
                8 * h <= w * h,
                base == view.base,
                cell_count == view.cells.len(),
                cells_revealed@ == SimulationView::started(view).revealed.take(i as int),
        {
            proof {
                lemma_unflat(w, h, i as int);
            }
            cells_revealed.push(within_radius(base, index_to_position(width, i), START_RADIUS));
            assert(cells_revealed@ =~= SimulationView::started(view).revealed.take(i + 1));
        }
        assert(cells_revealed@ =~= SimulationView::started(view).revealed);

        let mut resource_discovered: Vec<bool> = Vec::with_capacity(count);
        for i in 0..count
            invariant
                view.wf(),
                w == width,
                h == height,
                w == view.width,
                h == view.height,
                count == view.resources.len(),
                stocks@ == fresh_stocks(view.resources),
                cells_revealed@ == SimulationView::started(view).revealed,
                resource_discovered@ == SimulationView::started(view).discovered.take(i as int),
        {
            assert(view.placed_well(view.resources[i as int]));
            proof {
                lemma_flat(w, h, stocks@[i as int].position);
            }
            let idx = flat_index(width, height, stocks[i].position);
            resource_discovered.push(cells_revealed[idx]);
            assert(resource_discovered@ =~= SimulationView::started(view).discovered.take(i + 1));
        }
        assert(resource_discovered@ =~= SimulationView::started(view).discovered);

        let sim = Simulation {
            world,
            stocks,
            stock_at,
            base_inventory: BaseInventory { energy: 0, crystals: 0 },
            cells_revealed,
            resource_discovered,
        };
        proof {
            lemma_fresh_total(view.resources);
            assert forall|p: Position|
                #![trigger stock_at@[flat(w, p)]]
                view.holds(p) implies match stock_at@[flat(w, p)] {
                Some(i) => sim@.stands_at(i as int, p),
                None => forall|i: int| !sim@.stands_at(i, p),
            } by {
                lemma_flat(w, h, p);
                match stock_at@[flat(w, p)] {
                    Some(i) => {
                        assert(view.placed_well(view.resources[i as int]));
                        lemma_flat_injective(w, h, p, view.resources[i as int].position);
                    },
                    None => {
                        assert forall|i: int| !sim@.stands_at(i, p) by {
                            if sim@.stands_at(i, p) {
                                assert(view.resources[i].position == p);
                            }
                        }
                    },
                }
            }
        }
        sim
    }

    /// The static map.
    pub fn world(&self) -> (world: &World)
        requires
            self.wf(),
        ensures
            world.wf(),
            world@ == self@.world,
    {
        &self.world
    }

    /// Sum of `remaining` units across every resource stock still on the map.
    pub fn total_remaining(&self) -> (total: u64)
        requires
            self.wf(),
        ensures
            total == self@.total(),
    {
        let mut total: u64 = 0;
        for i in 0..self.stocks.len()
            invariant
                self.wf(),
                total == sum_remaining(self.stocks@.take(i as int)),
        {
            proof {
                assert(self.stocks@.take(i + 1).drop_last() =~= self.stocks@.take(i as int));
                lemma_sum_take(self.stocks@, i + 1);
            }
            total += self.stocks[i].remaining as u64;
        }
        assert(self.stocks@.take(self.stocks@.len() as int) =~= self.stocks@);
        total
    }

    /// How many units are left at `pos` (0 if the position has no resource or
    /// the resource is already depleted).
    pub fn stock_remaining_at(&self, pos: Position) -> (remaining: u16)
        requires
            self.wf(),
        ensures
            remaining == self@.remaining_at(pos),
    {
        match self.stock_index_at(pos) {
            Some(idx) => self.stocks[idx].remaining,
            None => 0,
        }
    }

    /// Returns `(remaining, initial)` for the resource at `pos`, or `(0, 0)`
    /// if none exists. Used for depletion-glow rendering.
    pub fn stock_info_at(&self, pos: Position) -> (info: (u16, u16))
        requires
            self.wf(),
        ensures
            info == match self@.stock(pos) {
                Some(stock) => (stock.remaining, stock.initial),
                None => (0u16, 0u16),
            },
    {
        match self.stock_index_at(pos) {
            Some(idx) => (self.stocks[idx].remaining, self.stocks[idx].initial),
            None => (0, 0),
        }
    }

    /// Attempts to collect one unit from the resource at `pos`.
    ///
    /// Returns `Some(kind)` on success, or `None` if the position has no
    /// resource or the stock is already exhausted.
    pub fn try_collect(&mut self, pos: Position) -> (kind: Option<ResourceKind>)
        requires
            old(self).wf(),
        ensures
            final(self).wf(),
            match kind {
                Some(kind) => {
                    &&& old(self)@.remaining_at(pos) > 0
                    &&& old(self)@.stock_index(pos) matches Some(i)
                    &&& kind == old(self)@.stocks[i].kind
                    &&& final(self)@ == old(self)@.taken_from(i)
                    &&& final(self)@.total() == old(self)@.total() - 1
                },
                None => {
                    &&& old(self)@.remaining_at(pos) == 0
                    &&& final(self)@ == old(self)@
                },
            },
    {
        match self.stock_index_at(pos) {
            Some(idx) => {
                let stock = self.stocks[idx];
                if stock.remaining == 0 {
                    return None;
                }
                let less = ResourceStock { remaining: stock.remaining - 1, ..stock };
                proof {
                    lemma_sum_update(self.stocks@, idx as int, less);
                }
                self.stocks[idx] = less;
                proof {
                    lemma_same_places(old(self)@, self@);
                }
                Some(stock.kind)
            },
            None => None,
        }
    }

    /// Deposits `amount` units of `kind` into the base inventory.
    pub fn unload(&mut self, kind: ResourceKind, amount: u16)
        requires
            old(self).wf(),
            old(self)@.held(kind) + amount <= u64::MAX,
        ensures
            final(self).wf(),
            final(self)@ == old(self)@.unloaded(kind, amount),
            final(self)@.delivered() == old(self)@.delivered() + amount,
    {
        match kind {
            ResourceKind::Energy => {
                self.base_inventory.energy += amount as u64;
            },
            ResourceKind::Crystal => {
                self.base_inventory.crystals += amount as u64;
            },
        }
        proof {
            lemma_same_places(old(self)@, self@);
        }
    }

    /// The positions of resource stocks that are **discovered** and still have
    /// units left.
    pub fn live_targets(&self) -> (targets: Vec<Position>)
        requires
            self.wf(),
        ensures
            targets@ == self@.live(),
    {
        let mut targets: Vec<Position> = Vec::new();
        for i in 0..self.stocks.len()
            invariant
                self.wf(),
                targets@ == live_upto(self.stocks@, self.resource_discovered@, i as nat),
        {
            if self.stocks[i].remaining > 0 && self.resource_discovered[i] {
                targets.push(self.stocks[i].position);
            }
        }
        targets
    }

    /// Records that a scout has observed a resource at `pos`.
    pub fn mark_resource_discovered(&mut self, pos: Position)
        requires
            old(self).wf(),
        ensures
            final(self).wf(),
            final(self)@ == old(self)@.with_resource_seen(pos),
    {
        if let Some(idx) = self.stock_index_at(pos) {
            self.resource_discovered[idx] = true;
        }
        proof {
            lemma_same_places(old(self)@, self@);
        }
        self.reveal_radius(pos, 1);
    }

    /// Records that a scout has observed an obstacle at `pos`.
    pub fn mark_obstacle_discovered(&mut self, pos: Position)
        requires
            old(self).wf(),
        ensures
            final(self).wf(),
            final(self)@ == old(self)@.with_cell_seen(pos),
    {
        self.reveal_cell(pos);
    }

    /// Whether a map cell has been revealed by any scout (or starts revealed).
    pub fn is_cell_revealed(&self, pos: Position) -> (revealed: bool)
        requires
            self.wf(),
        ensures
            revealed == (self@.world.holds(pos) && self@.revealed[flat(self@.world.width as int, pos)]),
    {
        let width = self.world.width();
        let height = self.world.height();
        if pos.x >= width || pos.y >= height {
            return false;
        }
        self.cells_revealed[flat_index(width, height, pos)]
    }

    /// The entire fog-of-war bitmap (for rendering).
    pub fn revealed_bitmap(&self) -> (bitmap: &[bool])
        ensures
            bitmap@ == self@.revealed,
    {
        self.cells_revealed.as_slice()
    }

    /// Whether a resource at `pos` has been discovered.
    pub fn is_resource_discovered(&self, pos: Position) -> (discovered: bool)
        requires
            self.wf(),
        ensures
            discovered == match self@.stock_index(pos) {
                Some(i) => self@.discovered[i],
                None => false,
            },
    {
        match self.stock_index_at(pos) {
            Some(idx) => self.resource_discovered[idx],
            None => false,
        }
    }

    /// Reveals a single cell (called when a robot steps on it).
    pub fn reveal_cell(&mut self, pos: Position)
        requires
            old(self).wf(),
        ensures
            final(self).wf(),
            final(self)@ == old(self)@.with_cell_seen(pos),
    {
        let width = self.world.width();
        let height = self.world.height();
        if pos.x < width && pos.y < height {
            let idx = flat_index(width, height, pos);
            self.cells_revealed[idx] = true;
        }
        proof {
            lemma_same_places(old(self)@, self@);
        }
    }

    /// Reveals all cells and resources.
    pub fn reveal_all(&mut self)
        requires
            old(self).wf(),
        ensures
            final(self).wf(),
            final(self)@ == old(self)@.with_all_seen(),
    {
        fill(&mut self.cells_revealed, true);
        fill(&mut self.resource_discovered, true);
        proof {
            lemma_same_places(old(self)@, self@);
        }
    }

    /// Shows as much of the map as the mode asks for.
    pub fn apply_reveal_mode(&mut self, mode: RevealMode)
        requires
            old(self).wf(),
        ensures
            final(self).wf(),
            final(self)@ == match mode {
                RevealMode::Normal => old(self)@,
                RevealMode::NoFog => old(self)@.with_terrain_seen(),
                RevealMode::Full => old(self)@.with_all_seen(),
            },
            final(self)@ == old(self)@.with_mode(mode),
    {
        match mode {
            RevealMode::Normal => {},
            RevealMode::NoFog => {
                fill(&mut self.cells_revealed, true);
                proof {
                    lemma_same_places(old(self)@, self@);
                }
            },
            RevealMode::Full => {
                self.reveal_all();
            },
        }
    }

    /// What is at the base.
    pub fn inventory(&self) -> (inventory: BaseInventory)
        ensures
            inventory == self@.inventory,
    {
        self.base_inventory
    }

    /// The stocks, in the order of the world's resources.
    pub fn stocks(&self) -> (stocks: &[ResourceStock])
        ensures
            stocks@ == self@.stocks,
    {
        self.stocks.as_slice()
    }

    /// Which stocks have been discovered.
    pub fn discovered_bitmap(&self) -> (bitmap: &[bool])
        ensures
            bitmap@ == self@.discovered,
    {
        self.resource_discovered.as_slice()
    }

    /// Of each cell, in row-major order, the number of the stock there.
    pub fn stock_table(&self) -> (table: &[Option<usize>])
        requires
            self.wf(),
        ensures
            table@ == self@.table(),
    {
        proof {
            let w = self@.world.width as int;
            let h = self@.world.height as int;
            assert forall|c: int| 0 <= c < self.stock_at@.len() implies self.stock_at@[c] == self@.table()[c] by {
                lemma_unflat(w, h, c);
                let p = unflat(w, c);
                assert(self.stock_at@[flat(w, p)] == self.stock_at@[c]);
                match self.stock_at@[c] {
                    Some(i) => {
                        assert(self@.stands_at(i as int, p));
                        lemma_stock_index(self@, i as int);
                    },
                    None => {},
                }
            }
            assert(self.stock_at@ =~= self@.table());
        }
        self.stock_at.as_slice()
    }

    /// The number of the stock at `pos`, if there is one.
    pub fn stock_index_at(&self, pos: Position) -> (idx: Option<usize>)
        requires
            self.wf(),
        ensures
            match idx {
                Some(idx) => self@.stock_index(pos) == Some(idx as int) && idx < self@.stocks.len(),
                None => self@.stock_index(pos) is None,
            },
    {
        let width = self.world.width();
        let height = self.world.height();
        if pos.x >= width || pos.y >= height {
            proof {
                assert forall|i: int| !self@.stands_at(i, pos) by {
                    if self@.stands_at(i, pos) {
                        assert(self@.stocks[i].position == self@.world.resources[i].position);
                        assert(self@.world.placed_well(self@.world.resources[i]));
                    }
                }
            }
            return None;
        }
        let flat_idx = flat_index(width, height, pos);
        assert(self.stock_at@[flat(width as int, pos)] == self.stock_at@[flat_idx as int]);
        match self.stock_at[flat_idx] {
            Some(i) => {
                proof {
                    lemma_stock_index(self@, i as int);
                }
                Some(i)
            },
            None => None,
        }
    }

    fn reveal_radius(&mut self, center: Position, radius: u8)
        requires
            old(self).wf(),
        ensures
            final(self).wf(),
            final(self)@ == (SimulationView {
                revealed: revealed_around(
                    old(self)@.revealed,
                    old(self)@.world.width as int,
                    center,
                    radius as int,
                ),
                ..old(self)@
            }),
    {
        let r = radius as i128;
        let width = self.world.width() as i128;
        let len = self.cells_revealed.len();
        let ghost w = width as int;
        let ghost before = self.cells_revealed@;
        let ghost h = self@.world.height as int;
        assert(8 * w <= w * h) by (nonlinear_arith)
            requires
                8 <= w,
                8 <= h,
        ;
        let mut dy: i128 = -r;
        while dy <= r
            invariant
                0 <= r <= 255,
                r == radius,
                -r <= dy <= r + 1,
                w == width,
                0 < w,
                8 * w <= usize::MAX,
                len == before.len(),
                self.cells_revealed@.len() == len,
                self.world == old(self).world,
                self.stocks == old(self).stocks,
                self.stock_at == old(self).stock_at,
                self.base_inventory == old(self).base_inventory,
                self.resource_discovered == old(self).resource_discovered,
                forall|i: int|
                    0 <= i < len ==> (#[trigger] self.cells_revealed@[i] <==> before[i] || exists|ex: int, ey: int|
                        #[trigger] touches(w, center, r as int, ex, ey, i) && ey < dy),
            decreases r + 1 - dy,
        {
            let mut dx: i128 = -r;
            while dx <= r
                invariant
                    0 <= r <= 255,
                    r == radius,
                    -r <= dy <= r,
                    -r <= dx <= r + 1,
                    w == width,
                    0 < w,
                    8 * w <= usize::MAX,
                    len == before.len(),
                    self.cells_revealed@.len() == len,
                    self.world == old(self).world,
                    self.stocks == old(self).stocks,
                    self.stock_at == old(self).stock_at,
                    self.base_inventory == old(self).base_inventory,
                    self.resource_discovered == old(self).resource_discovered,
                    forall|i: int|
                        0 <= i < len ==> (#[trigger] self.cells_revealed@[i] <==> before[i] || exists|ex: int, ey: int|
                            #[trigger] touches(w, center, r as int, ex, ey, i) && (ey < dy || (ey == dy && ex < dx))),
                decreases r + 1 - dx,
            {
                let ghost was = self.cells_revealed@;
                proof {
                    assert(0 <= dx * dx <= 255 * 255) by (nonlinear_arith)
                        requires
                            -255 <= dx <= 255,
                    ;
                    assert(0 <= dy * dy <= 255 * 255) by (nonlinear_arith)
                        requires
                            -255 <= dy <= 255,
                    ;
                    assert(0 <= r * r <= 255 * 255) by (nonlinear_arith)
                        requires
                            0 <= r <= 255,
                    ;
                }
                let nx: i128 = center.x as i128 + dx;
                let ny: i128 = center.y as i128 + dy;
                let ghost inside = dx * dx + dy * dy <= r * r && 0 <= nx < w && 0 <= ny;
                let ghost at = ny * w + nx;
                if dx * dx + dy * dy <= r * r && nx >= 0 && nx < width && ny >= 0 {
                    proof {
                        let top: int = 0x1_0000_0000_0000_00ff;
                        let wide: int = 0x2000_0000_0000_0000;
                        assert(0 <= ny * w <= top * wide) by (nonlinear_arith)
                            requires
                                0 <= ny <= top,
                                0 <= w <= wide,
                        ;
                    }
                    let idx: i128 = ny * width + nx;
                    if idx < len as i128 {
                        self.cells_revealed[idx as usize] = true;
                    }
                }
                proof {
                    assert forall|i: int| 0 <= i < len implies (#[trigger] self.cells_revealed@[i] <==> before[i]
                        || exists|ex: int, ey: int|
                        #[trigger] touches(w, center, r as int, ex, ey, i) && (ey < dy || (ey == dy && ex < dx + 1))) by {
                        assert(was[i] <==> before[i] || exists|ex: int, ey: int|
                            #[trigger] touches(w, center, r as int, ex, ey, i) && (ey < dy || (ey == dy && ex < dx)));
                        assert(touches(w, center, r as int, dx as int, dy as int, i) <==> inside && i == at);
                        if self.cells_revealed@[i] && !was[i] {
                            assert(touches(w, center, r as int, dx as int, dy as int, i));
                        }
                    }
                }
                dx += 1;
            }
            dy += 1;
        }
        proof {
            let target = revealed_around(before, w, center, radius as int);
            assert forall|i: int| 0 <= i < len implies self.cells_revealed@[i] == target[i] by {
                lemma_touches(w, h, center, r as int, i);
                if target[i] && !before[i] {
                    let (ex, ey) = choose|ex: int, ey: int| touches(w, center, r as int, ex, ey, i);
                    assert(touches(w, center, r as int, ex, ey, i) && ey < dy);
                }
            }
            assert(self.cells_revealed@ =~= target);
            lemma_same_places(old(self)@, self@);
        }
    }
}

impl SimulationView {
    /// As much revealed as a mode asks for.
    pub open spec fn with_mode(self, mode: RevealMode) -> SimulationView {
        match mode {
            RevealMode::Normal => self,
            RevealMode::NoFog => self.with_terrain_seen(),
            RevealMode::Full => self.with_all_seen(),
        }
    }
}

/// Where nothing is asked for, nothing more is shown; without fog every cell is,
/// but no resource is discovered by that; in full every resource is discovered
/// too. What there is never changes.
pub proof fn law_modes_show_as_much_as_they_say(sim: SimulationView, mode: RevealMode)
    requires
        sim.wf(),
    ensures
        sim.with_mode(RevealMode::Normal) == sim,
        mode != RevealMode::Normal ==> forall|i: int|
            0 <= i < sim.world.cells.len() ==> #[trigger] sim.with_mode(mode).revealed[i],
        sim.with_mode(RevealMode::NoFog).discovered == sim.discovered,
        forall|i: int| 0 <= i < sim.stocks.len() ==> #[trigger] sim.with_mode(RevealMode::Full).discovered[i],
        sim.with_mode(mode).revealed.len() == sim.revealed.len(),
        sim.with_mode(mode).discovered.len() == sim.discovered.len(),
        sim.with_mode(mode).world == sim.world,
        sim.with_mode(mode).stocks == sim.stocks,
        sim.with_mode(mode).inventory == sim.inventory,
{
}

/// At the start every stock is as full as its resource was placed, the base is
/// empty, and what lies within four cells of the base in a straight line is
/// visible, and nothing else.
pub proof fn law_simulation_starts_full_and_mostly_hidden(world: WorldView, p: Position, i: int)
    requires
        world.wf(),
    ensures
        ({
            let sim = SimulationView::started(world);
            let node = world.resources[i];
            let dx = p.x - world.base.x;
            let dy = p.y - world.base.y;
            let nx = node.position.x - world.base.x;
            let ny = node.position.y - world.base.y;
            &&& sim.world == world
            &&& sim.stocks.len() == world.resources.len()
            &&& 0 <= i < world.resources.len() ==> {
                &&& sim.stocks[i].kind == node.kind
                &&& sim.stocks[i].position == node.position
                &&& sim.stocks[i].initial == node.quantity
                &&& sim.stocks[i].remaining == node.quantity
                &&& sim.discovered[i] <==> nx * nx + ny * ny <= 16
            }
            &&& sim.inventory.energy == 0 && sim.inventory.crystals == 0
            &&& world.holds(p) ==> (sim.revealed[flat(world.width as int, p)] <==> dx * dx + dy * dy <= 16)
        }),
{
    if world.holds(p) {
        lemma_flat(world.width as int, world.height as int, p);
    }
}

/// Unloading adds the amount to the kind that is unloaded, and to nothing else.
pub proof fn law_unloading_adds_to_its_kind(sim: SimulationView, kind: ResourceKind, amount: u16)
    requires
        kind == ResourceKind::Energy ==> sim.inventory.energy + amount <= u64::MAX,
        kind == ResourceKind::Crystal ==> sim.inventory.crystals + amount <= u64::MAX,
    ensures
        kind == ResourceKind::Energy ==> sim.unloaded(kind, amount).inventory.energy == sim.inventory.energy + amount
            && sim.unloaded(kind, amount).inventory.crystals == sim.inventory.crystals,
        kind == ResourceKind::Crystal ==> sim.unloaded(kind, amount).inventory.crystals == sim.inventory.crystals
            + amount && sim.unloaded(kind, amount).inventory.energy == sim.inventory.energy,
        sim.held(ResourceKind::Energy) == sim.inventory.energy,
        sim.held(ResourceKind::Crystal) == sim.inventory.crystals,
        sim.delivered() == sim.inventory.energy + sim.inventory.crystals,
        sim.unloaded(kind, amount) == (SimulationView { inventory: sim.unloaded(kind, amount).inventory, ..sim }),
{
}

/// Taking a unit touches the one stock only: it has one unit less, and is else
/// what it was.
pub proof fn law_taking_touches_one_stock(sim: SimulationView, i: int, j: int)
    requires
        sim.wf(),
        0 <= i < sim.stocks.len(),
        0 <= j < sim.stocks.len(),
        sim.stocks[i].remaining > 0,
    ensures
        ({
            let was = sim.stocks[j];
            let left = sim.taken_from(i).stocks[j];
            &&& left.remaining == was.remaining - if i == j {
                1int
            } else {
                0
            }
            &&& left.kind == was.kind && left.position == was.position && left.initial == was.initial
        }),
        sim.taken_from(i) == (SimulationView { stocks: sim.taken_from(i).stocks, ..sim }),
        sim.taken_from(i).stocks.len() == sim.stocks.len(),
{
}

/// A reported resource is discovered, and its cell and the four next to it are
/// revealed, as far as they lie on the map. No other cell is, no other resource,
/// and nothing else changes.
pub proof fn law_resource_report_shows_its_cross(sim: SimulationView, p: Position, q: Position, i: int)
    requires
        sim.wf(),
        sim.world.holds(q),
    ensures
        ({
            let after = sim.with_resource_seen(p);
            &&& after.revealed[flat(sim.world.width as int, q)] <==> sim.revealed[flat(sim.world.width as int, q)] || q
                == p || adjacent(p, q)
            &&& 0 <= i < sim.stocks.len() ==> (after.discovered[i] <==> sim.discovered[i] || sim.stocks[i].position
                == p)
            &&& after == (SimulationView { revealed: after.revealed, discovered: after.discovered, ..sim })
            &&& after.revealed.len() == sim.revealed.len() && after.discovered.len() == sim.discovered.len()
        }),
{
    let w = sim.world.width as int;
    lemma_flat(w, sim.world.height as int, q);
    law_radius_is_a_circle(p, q, 1, q.x - p.x, q.y - p.y);
    if 0 <= i < sim.stocks.len() && sim.stocks[i].position == p {
        lemma_stock_index(sim, i);
    }
    if let Some(j) = sim.stock_index(p) {
        assert(sim.stands_at(j, p));
    }
}

/// A cell that is reported or stepped on is revealed, where it lies on the map;
/// no other is, and nothing else changes.
pub proof fn law_seen_cell_is_revealed(sim: SimulationView, p: Position, q: Position)
    requires
        sim.wf(),
        sim.world.holds(q),
    ensures
        sim.with_cell_seen(p).revealed[flat(sim.world.width as int, q)] <==> sim.revealed[flat(
            sim.world.width as int,
            q,
        )] || q == p,
        sim.with_cell_seen(p) == (SimulationView { revealed: sim.with_cell_seen(p).revealed, ..sim }),
        sim.with_cell_seen(p).revealed.len() == sim.revealed.len(),
{
    let w = sim.world.width as int;
    let h = sim.world.height as int;
    lemma_flat(w, h, q);
    if sim.world.holds(p) {
        lemma_flat(w, h, p);
        if p != q && flat(w, p) == flat(w, q) {
            lemma_flat_injective(w, h, p, q);
        }
    }
}

/// What is found at a position is what stands there, and nothing is found where
/// nothing stands.
pub proof fn law_stocks_are_found_where_they_stand(sim: SimulationView, p: Position, i: int)
    requires
        sim.wf(),
    ensures
        0 <= i < sim.stocks.len() && sim.stocks[i].position == p ==> {
            &&& sim.stock_index(p) == Some(i)
            &&& sim.stock(p) == Some(sim.stocks[i])
            &&& sim.remaining_at(p) == sim.stocks[i].remaining
        },
        (forall|j: int| 0 <= j < sim.stocks.len() ==> (#[trigger] sim.stocks[j]).position != p) ==> {
            &&& sim.stock_index(p) is None
            &&& sim.stock(p) is None
            &&& sim.remaining_at(p) == 0
        },
{
    if 0 <= i < sim.stocks.len() && sim.stocks[i].position == p {
        lemma_stock_index(sim, i);
    }
    if forall|j: int| 0 <= j < sim.stocks.len() ==> (#[trigger] sim.stocks[j]).position != p {
        assert forall|j: int| !sim.stands_at(j, p) by {}
    }
}

/// The table of stocks names the stock of each cell by its number.
pub proof fn law_table_names_the_stock_of_each_cell(sim: SimulationView, p: Position, i: usize)
    requires
        sim.wf(),
        sim.world.holds(p),
    ensures
        sim.table()[flat(sim.world.width as int, p)] == Some(i) <==> i < sim.stocks.len() && sim.stocks[i as int].position
            == p,
        sim.table()[flat(sim.world.width as int, p)] is None <==> forall|j: int|
            0 <= j < sim.stocks.len() ==> (#[trigger] sim.stocks[j]).position != p,
        sim.table().len() == sim.world.cells.len(),
{
    let w = sim.world.width as int;
    lemma_flat(w, sim.world.height as int, p);
    law_resources_fit_the_map(sim.world);
    law_stocks_are_found_where_they_stand(sim, p, i as int);
    if let Some(j) = sim.stock_index(p) {
        assert(sim.stands_at(j, p));
        assert(sim.stocks[j].position == p);
    }
    if sim.stock_index(p) is None {
        assert forall|j: int| 0 <= j < sim.stocks.len() implies (#[trigger] sim.stocks[j]).position != p by {
            assert(!sim.stands_at(j, p));
        }
    }
}

/// The live targets come in the order of the stocks, each once.
pub proof fn law_live_targets_keep_the_order(sim: SimulationView, a: int, b: int)
    requires
        sim.wf(),
        0 <= a < b < sim.live().len(),
    ensures
        sim.live()[a] != sim.live()[b],
        sim.stock_index(sim.live()[a]) matches Some(i) && sim.stock_index(sim.live()[b]) matches Some(j) && i < j,
{
    let (i, j) = lemma_live_order(sim.stocks, sim.discovered, sim.stocks.len(), a, b);
    lemma_stock_index(sim, i);
    lemma_stock_index(sim, j);
}

proof fn lemma_live_order(stocks: Seq<ResourceStock>, discovered: Seq<bool>, upto: nat, a: int, b: int) -> (ij: (
    int,
    int,
))
    requires
        upto <= stocks.len(),
        0 <= a < b < live_upto(stocks, discovered, upto).len(),
    ensures
        0 <= ij.0 < ij.1 < upto,
        live_upto(stocks, discovered, upto)[a] == stocks[ij.0].position,
        live_upto(stocks, discovered, upto)[b] == stocks[ij.1].position,
    decreases upto,
{
    let before = live_upto(stocks, discovered, (upto - 1) as nat);
    if b < before.len() {
        lemma_live_order(stocks, discovered, (upto - 1) as nat, a, b)
    } else {
        let i = lemma_live_place(stocks, discovered, (upto - 1) as nat, a);
        (i, upto - 1)
    }
}

proof fn lemma_live_place(stocks: Seq<ResourceStock>, discovered: Seq<bool>, upto: nat, a: int) -> (i: int)
    requires
        upto <= stocks.len(),
        0 <= a < live_upto(stocks, discovered, upto).len(),
    ensures
        0 <= i < upto,
        live_upto(stocks, discovered, upto)[a] == stocks[i].position,
    decreases upto,
{
    if a < live_upto(stocks, discovered, (upto - 1) as nat).len() {
        lemma_live_place(stocks, discovered, (upto - 1) as nat, a)
    } else {
        upto - 1
    }
}

/// A discovered stock with units left is a live target.
pub proof fn law_stocks_with_units_are_live(sim: SimulationView, i: int)
    requires
        sim.wf(),
        0 <= i < sim.stocks.len(),
        sim.stocks[i].remaining > 0,
        sim.discovered[i],
    ensures
        sim.live().contains(sim.stocks[i].position),
{
    lemma_live(sim.stocks, sim.discovered, sim.stocks.len(), i);
}

/// Every stock adds what is left in it to the total, and every resource what was
/// placed.
pub proof fn law_totals_add_up(
    stocks: Seq<ResourceStock>,
    stock: ResourceStock,
    nodes: Seq<ResourceNode>,
    node: ResourceNode,
)
    ensures
        sum_remaining(Seq::<ResourceStock>::empty()) == 0,
        sum_remaining(stocks.push(stock)) == sum_remaining(stocks) + stock.remaining,
        sum_quantity(Seq::<ResourceNode>::empty()) == 0,
        sum_quantity(nodes.push(node)) == sum_quantity(nodes) + node.quantity,
{
    assert(stocks.push(stock).drop_last() =~= stocks);
    assert(nodes.push(node).drop_last() =~= nodes);
}

impl SimulationView {
    /// Whether all that is visible stays visible in `later`.
    pub open spec fn shown_in(self, later: SimulationView) -> bool {
        &&& self.revealed.len() == later.revealed.len()
        &&& self.discovered.len() == later.discovered.len()
        &&& forall|i: int| 0 <= i < self.revealed.len() && #[trigger] self.revealed[i] ==> later.revealed[i]
        &&& forall|i: int| 0 <= i < self.discovered.len() && #[trigger] self.discovered[i] ==> later.discovered[i]
    }
}

/// Fog only ever lifts: nothing that scouts report, no step of a robot and no
/// way of revealing the map hides a cell or forgets a resource again.
pub proof fn law_fog_only_lifts(sim: SimulationView, p: Position)
    requires
        sim.wf(),
    ensures
        sim.shown_in(sim.with_resource_seen(p)),
        sim.shown_in(sim.with_cell_seen(p)),
        sim.shown_in(sim.with_terrain_seen()),
        sim.shown_in(sim.with_all_seen()),
        count_true(sim.revealed) <= count_true(sim.with_resource_seen(p).revealed),
        count_true(sim.revealed) <= count_true(sim.with_cell_seen(p).revealed),
        count_true(sim.discovered) <= count_true(sim.with_resource_seen(p).discovered),
{
    if let Some(i) = sim.stock_index(p) {
        assert(sim.stands_at(i, p));
    }
    if sim.world.holds(p) {
        lemma_flat(sim.world.width as int, sim.world.height as int, p);
    }
    lemma_count_monotone(sim.revealed, sim.with_resource_seen(p).revealed);
    lemma_count_monotone(sim.revealed, sim.with_cell_seen(p).revealed);
    lemma_count_monotone(sim.discovered, sim.with_resource_seen(p).discovered);
}

/// Lifting fog moves no unit.
pub proof fn law_fog_keeps_units(sim: SimulationView, p: Position)
    ensures
        sim.with_resource_seen(p).total() == sim.total(),
        sim.with_resource_seen(p).inventory == sim.inventory,
        sim.with_cell_seen(p).total() == sim.total(),
        sim.with_cell_seen(p).inventory == sim.inventory,
        sim.with_terrain_seen().total() == sim.total(),
        sim.with_terrain_seen().inventory == sim.inventory,
        sim.with_all_seen().total() == sim.total(),
        sim.with_all_seen().inventory == sim.inventory,
{
}

/// A resource that was reported is a live target as long as units are left.
pub proof fn law_reported_resources_are_live(sim: SimulationView, i: int)
    requires
        sim.wf(),
        0 <= i < sim.stocks.len(),
        sim.stocks[i].remaining > 0,
    ensures
        sim.with_resource_seen(sim.stocks[i].position).live().contains(sim.stocks[i].position),
{
    lemma_stock_index(sim, i);
    let later = sim.with_resource_seen(sim.stocks[i].position);
    lemma_live(later.stocks, later.discovered, later.stocks.len(), i);
}

proof fn lemma_live(stocks: Seq<ResourceStock>, discovered: Seq<bool>, upto: nat, i: int)
    requires
        0 <= i < upto <= stocks.len(),
        stocks[i].remaining > 0,
        discovered[i],
    ensures
        live_upto(stocks, discovered, upto).contains(stocks[i].position),
    decreases upto,
{
    let all = live_upto(stocks, discovered, upto);
    if i == upto - 1 {
        assert(all[all.len() - 1] == stocks[i].position);
    } else {
        lemma_live(stocks, discovered, (upto - 1) as nat, i);
        let before = live_upto(stocks, discovered, (upto - 1) as nat);
        let k = choose|k: int| 0 <= k < before.len() && before[k] == stocks[i].position;
        assert(all[k] == before[k]);
    }
}

/// Nothing is a live target but a discovered resource with units left.
pub proof fn law_live_targets_have_units(sim: SimulationView, p: Position)
    requires
        sim.wf(),
        sim.live().contains(p),
    ensures
        sim.remaining_at(p) > 0,
        sim.stock_index(p) matches Some(i) && sim.discovered[i],
{
    let i = lemma_live_from(sim.stocks, sim.discovered, sim.stocks.len(), p);
    lemma_stock_index(sim, i);
}

proof fn lemma_live_from(stocks: Seq<ResourceStock>, discovered: Seq<bool>, upto: nat, p: Position) -> (i: int)
    requires
        upto <= stocks.len(),
        live_upto(stocks, discovered, upto).contains(p),
    ensures
        0 <= i < upto,
        stocks[i].position == p,
        stocks[i].remaining > 0,
        discovered[i],
    decreases upto,
{
    let all = live_upto(stocks, discovered, upto);
    let k = choose|k: int| 0 <= k < all.len() && all[k] == p;
    if upto == 0 {
        0
    } else {
        let before = live_upto(stocks, discovered, (upto - 1) as nat);
        if k < before.len() {
            assert(before[k] == p);
            lemma_live_from(stocks, discovered, (upto - 1) as nat, p)
        } else {
            upto - 1
        }
    }
}

} // verus!
