//! The map: its cells, its resources, and how both come to be.

use crate::grid::{connected, flat, neighbor, neighbor_of, on_map, unflat, walk, within, Grid};
use crate::grid::{abs_diff, adjacent, flat_index};
use crate::grid::{lemma_closed_holds, lemma_flat, lemma_flat_injective, lemma_flat_update};
use crate::grid::{lemma_neighbors, lemma_unflat, lemma_walk_step};
use crate::rng::{drawn_between, random_between, rng_state, seed_rng, seeded_state, shuffle, shuffled};
use crate::tally::{count_true, lemma_count_bound, lemma_count_set};
use std::collections::VecDeque;
use vstd::prelude::*;

verus! {

/// A cell of the map, by column and row.
#[derive(Debug, Clone, Copy, PartialEq, Eq, Structural)]
pub struct Position {
    pub x: usize,
    pub y: usize,
}

#[derive(Debug, Clone, Copy, PartialEq, Eq, Structural)]
pub enum ResourceKind {
    Energy,
    Crystal,
}

/// A resource as it was placed on the map.
#[derive(Debug, Clone, Copy, PartialEq, Eq, Structural)]
pub struct ResourceNode {
    pub kind: ResourceKind,
    pub position: Position,
    pub quantity: u16,
}

#[derive(Debug, Clone, Copy, PartialEq, Eq, Structural)]
pub enum Cell {
    Walkable,
    Obstacle,
}

/// Maps a biome noise value (0..=255) to a palette entry for obstacle variety.
/// Low values are water, mid values vegetation, high values rock.
pub type BiomeId = u8;

/// The least and the greatest quantity of a fresh resource.
pub const MIN_QUANTITY: u16 = 50;

pub const MAX_QUANTITY: u16 = 200;

/// The least width and height of a map.
pub const MIN_SIDE: usize = 8;

/// One, in the fixed-point unit of the fractions in a configuration.
pub const MICROS: i64 = 1_000_000;

/// The static map: terrain, resources as placed, and the base.
#[derive(Debug, PartialEq, Eq)]
pub struct World {
    width: usize,
    height: usize,
    cells: Vec<Cell>,
    /// Biome of each cell that the terrain made an obstacle, `0` elsewhere.
    obstacle_biome: Vec<BiomeId>,
    resource_at: Vec<Option<usize>>,
    resources: Vec<ResourceNode>,
    base: Position,
}

/// What a world holds, as mathematics.
pub struct WorldView {
    pub width: nat,
    pub height: nat,
    pub cells: Seq<Cell>,
    pub biomes: Seq<BiomeId>,
    pub resources: Seq<ResourceNode>,
    pub base: Position,
}

/// Parameters of world generation. The two fractions are in millionths.
#[derive(Debug, Clone, Copy, PartialEq, Eq, Structural)]
pub struct WorldConfig {
    pub width: usize,
    pub height: usize,
    pub obstacle_threshold: i64,
    pub obstacle_frequency: i64,
    pub base_safety_radius: usize,
    pub energy_nodes: usize,
    pub crystal_nodes: usize,
}

/// Why a configuration is refused.
#[derive(Debug, Clone, Copy, PartialEq, Eq, Structural)]
pub enum ConfigError {
    TooSmall,
    ObstacleFrequency,
    ObstacleThreshold,
}

impl ConfigError {
    /// The text shown to a user.
    pub open spec fn text(self) -> &'static str {
        match self {
            ConfigError::TooSmall => "world dimensions must be at least 8x8",
            ConfigError::ObstacleFrequency => "obstacle_frequency must be in (0.0, 1.0]",
            ConfigError::ObstacleThreshold => "obstacle_threshold must be in [-1.0, 1.0]",
        }
    }

    /// The text shown to a user.
    pub fn message(&self) -> (text: &'static str)
        ensures
            text == self.text(),
    {
        match self {
            ConfigError::TooSmall => "world dimensions must be at least 8x8",
            ConfigError::ObstacleFrequency => "obstacle_frequency must be in (0.0, 1.0]",
            ConfigError::ObstacleThreshold => "obstacle_threshold must be in [-1.0, 1.0]",
        }
    }
}

impl WorldConfig {
    /// The first thing wrong with the configuration, if anything is.
    pub open spec fn defect(self) -> Option<ConfigError> {
        if self.width < MIN_SIDE || self.height < MIN_SIDE {
            Some(ConfigError::TooSmall)
        } else if !(0 < self.obstacle_frequency <= MICROS) {
            Some(ConfigError::ObstacleFrequency)
        } else if !(-MICROS <= self.obstacle_threshold <= MICROS) {
            Some(ConfigError::ObstacleThreshold)
        } else {
            None
        }
    }

    /// The base stands in the middle of the map.
    pub open spec fn center(self) -> Position {
        Position { x: (self.width / 2) as usize, y: (self.height / 2) as usize }
    }

    /// The balanced configuration.
    pub open spec fn standard() -> WorldConfig {
        WorldConfig {
            width: 96,
            height: 40,
            obstacle_threshold: 50_000,
            obstacle_frequency: 60_000,
            base_safety_radius: 5,
            energy_nodes: 14,
            crystal_nodes: 14,
        }
    }
}

impl Default for WorldConfig {
    fn default() -> (config: Self)
        ensures
            config == WorldConfig::standard(),
    {
        WorldConfig {
            width: 96,
            height: 40,
            obstacle_threshold: 50_000,
            obstacle_frequency: 60_000,
            base_safety_radius: 5,
            energy_nodes: 14,
            crystal_nodes: 14,
        }
    }
}

/// Accepts a configuration, or says what is wrong with it.
pub fn validate_config(config: WorldConfig) -> (verdict: Result<(), ConfigError>)
    ensures
        match verdict {
            Ok(()) => config.defect() is None,
            Err(e) => config.defect() == Some(e),
        },
{
    if config.width < MIN_SIDE || config.height < MIN_SIDE {
        return Err(ConfigError::TooSmall);
    }
    if !(0 < config.obstacle_frequency && config.obstacle_frequency <= MICROS) {
        return Err(ConfigError::ObstacleFrequency);
    }
    if !(-MICROS <= config.obstacle_threshold && config.obstacle_threshold <= MICROS) {
        return Err(ConfigError::ObstacleThreshold);
    }
    Ok(())
}

/// The walkable cells as a graph.
pub open spec fn cells_grid(width: nat, height: nat, cells: Seq<Cell>) -> Grid {
    Grid { width, height, free: Seq::new(cells.len(), |i: int| cells[i] == Cell::Walkable) }
}

impl WorldView {
    /// Whether `p` lies on the map.
    pub open spec fn holds(self, p: Position) -> bool {
        on_map(self.width as int, self.height as int, p)
    }

    /// The cell at `p`, if `p` lies on the map.
    pub open spec fn cell_at(self, p: Position) -> Option<Cell> {
        if self.holds(p) {
            Some(self.cells[flat(self.width as int, p)])
        } else {
            None
        }
    }

    /// The walkable cells as a graph.
    pub open spec fn grid(self) -> Grid {
        cells_grid(self.width, self.height, self.cells)
    }

    /// Whether the resource with number `i` stands at `p`.
    pub open spec fn stands_at(self, i: int, p: Position) -> bool {
        0 <= i < self.resources.len() && self.resources[i].position == p
    }

    /// The resource at `p`, if there is one.
    pub open spec fn node_at(self, p: Position) -> Option<ResourceNode> {
        if exists|i: int| self.stands_at(i, p) {
            Some(self.resources[choose|i: int| self.stands_at(i, p)])
        } else {
            None
        }
    }

    /// What is true of one resource: it stands on a walkable cell that can be
    /// reached from the base, never on the base, with a quantity in range.
    pub open spec fn placed_well(self, node: ResourceNode) -> bool {
        &&& self.grid().is_free(node.position)
        &&& connected(self.grid(), self.base, node.position)
        &&& node.position != self.base
        &&& MIN_QUANTITY <= node.quantity <= MAX_QUANTITY
    }

    /// What is true of every generated world.
    pub open spec fn wf(self) -> bool {
        &&& MIN_SIDE <= self.width <= usize::MAX
        &&& MIN_SIDE <= self.height <= usize::MAX
        &&& self.width * self.height <= usize::MAX
        &&& self.cells.len() == self.width * self.height
        &&& self.biomes.len() == self.width * self.height
        &&& self.base.x == self.width / 2
        &&& self.base.y == self.height / 2
        &&& self.grid().is_free(self.base)
        &&& forall|i: int| 0 <= i < self.resources.len() ==> self.placed_well(#[trigger] self.resources[i])
        &&& forall|i: int, j: int|
            0 <= i < j < self.resources.len() ==> #[trigger] self.resources[i].position
                != #[trigger] self.resources[j].position
    }
}

impl View for World {
    type V = WorldView;

    closed spec fn view(&self) -> WorldView {
        WorldView {
            width: self.width as nat,
            height: self.height as nat,
            cells: self.cells@,
            biomes: self.obstacle_biome@,
            resources: self.resources@,
            base: self.base,
        }
    }
}

impl Clone for World {
    fn clone(&self) -> (copy: Self)
        ensures
            copy@ == self@,
            copy.indexed() == self.indexed(),
    {
        let copy = World {
            width: self.width,
            height: self.height,
            cells: self.cells.clone(),
            obstacle_biome: self.obstacle_biome.clone(),
            resource_at: self.resource_at.clone(),
            resources: self.resources.clone(),
            base: self.base,
        };
        proof {
            assert(copy.cells@ =~= self.cells@);
            assert(copy.obstacle_biome@ =~= self.obstacle_biome@);
            assert(copy.resource_at@ =~= self.resource_at@);
            assert(copy.resources@ =~= self.resources@);
        }
        copy
    }
}

/// Whether cell `idx` may hold a resource: walkable, connected to the base,
/// and not the base itself.
pub open spec fn is_candidate(width: nat, height: nat, cells: Seq<Cell>, base: Position, idx: int) -> bool {
    let p = unflat(width as int, idx);
    &&& cells[idx] == Cell::Walkable
    &&& connected(cells_grid(width, height, cells), base, p)
    &&& p != base
}

/// The candidate cells among the first `upto` cells, in order.
pub open spec fn candidates(width: nat, height: nat, cells: Seq<Cell>, base: Position, upto: nat) -> Seq<usize>
    decreases upto,
{
    if upto == 0 {
        Seq::empty()
    } else {
        let before = candidates(width, height, cells, base, (upto - 1) as nat);
        if is_candidate(width, height, cells, base, upto - 1) {
            before.push((upto - 1) as usize)
        } else {
            before
        }
    }
}

/// The terrain's cells with the zone around the base cleared.
pub open spec fn carved(cells: Seq<Cell>, width: int, base: Position, radius: int) -> Seq<Cell> {
    Seq::new(
        cells.len(),
        |i: int|
            if within(base, unflat(width, i), radius) {
                Cell::Walkable
            } else {
                cells[i]
            },
    )
}

/// An obstacle wherever the terrain has a biome.
pub open spec fn terrain_cells(terrain: Seq<Option<BiomeId>>) -> Seq<Cell> {
    Seq::new(
        terrain.len(),
        |i: int|
            if terrain[i] is Some {
                Cell::Obstacle
            } else {
                Cell::Walkable
            },
    )
}

/// The biome of each obstacle of the terrain, `0` elsewhere.
pub open spec fn terrain_biomes(terrain: Seq<Option<BiomeId>>) -> Seq<BiomeId> {
    Seq::new(
        terrain.len(),
        |i: int|
            match terrain[i] {
                Some(b) => b,
                None => 0,
            },
    )
}

/// The generator's state after `count` quantities were drawn from `state`.
pub open spec fn state_after(state: Seq<u8>, count: nat) -> Seq<u8>
    decreases count,
{
    if count == 0 {
        state
    } else {
        drawn_between(state_after(state, (count - 1) as nat), MIN_QUANTITY, MAX_QUANTITY).1
    }
}

/// The smaller of two numbers.
pub open spec fn least(a: nat, b: nat) -> nat {
    if a <= b {
        a
    } else {
        b
    }
}

/// The first `count` quantities that are drawn from `state`.
pub open spec fn drawn_quantities(state: Seq<u8>, count: nat) -> Seq<u16> {
    Seq::new(count, |k: int| drawn_between(state_after(state, k as nat), MIN_QUANTITY, MAX_QUANTITY).0)
}

/// The resources that are placed: one for each quantity, from the end of the
/// shuffled candidates, first energy, then crystals.
pub open spec fn placed(width: int, order: Seq<usize>, quantities: Seq<u16>, energy: nat) -> Seq<ResourceNode> {
    Seq::new(
        quantities.len(),
        |k: int|
            ResourceNode {
                kind: if k < energy {
                    ResourceKind::Energy
                } else {
                    ResourceKind::Crystal
                },
                position: unflat(width, order[order.len() - 1 - k] as int),
                quantity: quantities[k],
            },
    )
}

impl WorldConfig {
    /// How many energy resources are placed, where `available` cells may hold
    /// one: as many as the configuration asks for and the cells allow.
    pub open spec fn energy_count(self, available: nat) -> nat {
        least(self.energy_nodes as nat, available)
    }

    /// How many resources of both kinds are placed; energy comes first.
    pub open spec fn node_count(self, available: nat) -> nat {
        let energy = self.energy_count(available);
        energy + least(self.crystal_nodes as nat, (available - energy) as nat)
    }

    /// The cells of a world with this terrain.
    pub open spec fn ground(self, terrain: Seq<Option<BiomeId>>) -> Seq<Cell> {
        carved(terrain_cells(terrain), self.width as int, self.center(), self.base_safety_radius as int)
    }

    /// The cells that may hold a resource, on this ground.
    pub open spec fn pool(self, cells: Seq<Cell>) -> Seq<usize> {
        candidates(self.width as nat, self.height as nat, cells, self.center(), (self.width * self.height) as nat)
    }
}

/// The world with resources of these quantities on candidates in this order.
pub open spec fn settled(
    config: WorldConfig,
    terrain: Seq<Option<BiomeId>>,
    order: Seq<usize>,
    quantities: Seq<u16>,
) -> WorldView {
    WorldView {
        width: config.width as nat,
        height: config.height as nat,
        cells: config.ground(terrain),
        biomes: terrain_biomes(terrain),
        resources: placed(config.width as int, order, quantities, config.energy_count(order.len())),
        base: config.center(),
    }
}

/// The world that a seed, a configuration and a terrain make: the candidates
/// are shuffled, then one quantity is drawn for each resource.
pub open spec fn generated(seed: u64, config: WorldConfig, terrain: Seq<Option<BiomeId>>) -> WorldView {
    let (order, state) = shuffled(seeded_state(seed), config.pool(config.ground(terrain)));
    settled(config, terrain, order, drawn_quantities(state, config.node_count(order.len())))
}

/// How many of the cells are obstacles.
pub open spec fn count_obstacles(cells: Seq<Cell>) -> nat
    decreases cells.len(),
{
    if cells.len() == 0 {
        0
    } else {
        count_obstacles(cells.drop_last()) + if cells.last() == Cell::Obstacle {
            1nat
        } else {
            0nat
        }
    }
}

/// The candidates below `upto` are listed once each, and only they.
proof fn lemma_candidates(width: nat, height: nat, cells: Seq<Cell>, base: Position, upto: nat)
    requires
        upto <= usize::MAX,
    ensures
        candidates(width, height, cells, base, upto).len() <= upto,
        candidates(width, height, cells, base, upto).no_duplicates(),
        forall|k: int|
            0 <= k < candidates(width, height, cells, base, upto).len() ==> {
                let i = #[trigger] candidates(width, height, cells, base, upto)[k] as int;
                i < upto && is_candidate(width, height, cells, base, i)
            },
    decreases upto,
{
    if upto > 0 {
        lemma_candidates(width, height, cells, base, (upto - 1) as nat);
    }
}

/// Reordering keeps the entries, and keeps them distinct.
proof fn lemma_reordered(a: Seq<usize>, b: Seq<usize>)
    requires
        a.to_multiset() == b.to_multiset(),
        a.no_duplicates(),
    ensures
        b.no_duplicates(),
        b.len() == a.len(),
        forall|k: int| 0 <= k < b.len() ==> a.contains(#[trigger] b[k]),
{
    broadcast use vstd::seq_lib::group_to_multiset_ensures;

    a.lemma_multiset_has_no_duplicates();
    b.lemma_multiset_has_no_duplicates_conv();
    assert(b.len() == b.to_multiset().len());
    assert(a.len() == a.to_multiset().len());
    assert forall|k: int| 0 <= k < b.len() implies a.contains(#[trigger] b[k]) by {
        assert(b.contains(b[k]));
        assert(b.to_multiset().count(b[k]) > 0);
        assert(a.to_multiset().count(b[k]) > 0);
    }
}

/// Whether `p` lies within `radius` of `center`.
pub fn within_radius(center: Position, p: Position, radius: usize) -> (inside: bool)
    requires
        center.x <= isize::MAX,
        center.y <= isize::MAX,
        p.x <= isize::MAX,
        p.y <= isize::MAX,
    ensures
        inside == within(center, p, radius as int),
{
    let dx = abs_diff(p.x, center.x) as u128;
    let dy = abs_diff(p.y, center.y) as u128;
    let r = radius as u128;
    proof {
        let bound: int = 0x8000_0000_0000_0000;
        assert(0 <= dx * dx <= bound * bound) by (nonlinear_arith)
            requires
                0 <= dx <= bound,
        ;
        assert(0 <= dy * dy <= bound * bound) by (nonlinear_arith)
            requires
                0 <= dy <= bound,
        ;
        assert(0 <= r * r <= 0xffff_ffff_ffff_ffff * 0xffff_ffff_ffff_ffff) by (nonlinear_arith)
            requires
                0 <= r <= 0xffff_ffff_ffff_ffff,
        ;
        let ex = p.x - center.x;
        let ey = p.y - center.y;
        assert(dx * dx == ex * ex) by (nonlinear_arith)
            requires
                dx == ex || dx == -ex,
        ;
        assert(dy * dy == ey * ey) by (nonlinear_arith)
            requires
                dy == ey || dy == -ey,
        ;
    }
    dx * dx + dy * dy <= r * r
}

/// The position with a given flat index.
pub fn index_to_position(width: usize, idx: usize) -> (p: Position)
    requires
        width > 0,
    ensures
        p == unflat(width as int, idx as int),
{
    Position { x: idx % width, y: idx / width }
}

/// Clears the cells within `radius` of the base.
pub fn carve_base_safety_zone(
    cells: &mut Vec<Cell>,
    width: usize,
    height: usize,
    base: Position,
    base_safety_radius: usize,
)
    requires
        old(cells)@.len() == width * height,
        0 < width <= isize::MAX,
        height <= isize::MAX,
        on_map(width as int, height as int, base),
    ensures
        final(cells)@ == carved(old(cells)@, width as int, base, base_safety_radius as int),
{
    let ghost before = cells@;
    let count = cells.len();
    for i in 0..count
        invariant
            0 < width <= isize::MAX,
            height <= isize::MAX,
            count == width * height,
            on_map(width as int, height as int, base),
            cells@.len() == count,
            before.len() == count,
            forall|j: int| 0 <= j < i ==> cells@[j] == carved(before, width as int, base, base_safety_radius as int)[j],
            forall|j: int| i <= j < count ==> cells@[j] == before[j],
    {
        let p = index_to_position(width, i);
        proof {
            lemma_unflat(width as int, height as int, i as int);
        }
        if within_radius(base, p, base_safety_radius) {
            cells[i] = Cell::Walkable;
        }
    }
    assert(cells@ =~= carved(before, width as int, base, base_safety_radius as int));
}

/// Flood-fill from `start`: marks the walkable cells that can be reached from
/// it without passing through obstacles. Nothing is marked where `start` is
/// itself an obstacle, or off the map.
pub fn flood_fill_reachable(cells: &Vec<Cell>, width: usize, height: usize, start: Position) -> (reached: Vec<bool>)
    requires
        cells@.len() == width * height,
    ensures
        reached@.len() == cells@.len(),
        forall|p: Position|
            #![trigger reached@[flat(width as int, p)]]
            on_map(width as int, height as int, p) ==> (reached@[flat(width as int, p)] <==> {
                &&& cells_grid(width as nat, height as nat, cells@).is_free(start)
                &&& connected(cells_grid(width as nat, height as nat, cells@), start, p)
            }),
{
    let ghost w = width as int;
    let ghost h = height as int;
    let ghost g = cells_grid(width as nat, height as nat, cells@);
    let mut reached: Vec<bool> = vec![false; cells.len()];
    assert forall|p: Position| #![trigger reached@[flat(w, p)]] on_map(w, h, p) implies !reached@[flat(w, p)] by {
        lemma_flat(w, h, p);
    }
    if start.x >= width || start.y >= height {
        return reached;
    }
    let start_idx = flat_index(width, height, start);
    if cells[start_idx] == Cell::Obstacle {
        return reached;
    }
    let mut queue: VecDeque<Position> = VecDeque::new();
    proof {
        lemma_flat_update(w, h, reached@, start, true);
        lemma_flat(w, h, start);
    }
    reached[start_idx] = true;
    queue.push_back(start);
    assert(walk(g, start, start, 0));
    assert(queue@.contains(start)) by {
        assert(queue@[0] == start);
    }

    while queue.len() > 0
        invariant
            w == width,
            h == height,
            g == cells_grid(width as nat, height as nat, cells@),
            on_map(w, h, start),
            cells@.len() == width * height,
            width * height <= usize::MAX,
            reached@.len() == cells@.len(),
            reached@[flat(w, start)],
            cells@[flat(w, start)] == Cell::Walkable,
            forall|p: Position|
                #![trigger reached@[flat(w, p)]]
                on_map(w, h, p) && reached@[flat(w, p)] ==> connected(g, start, p),
            forall|k: int| 0 <= k < queue@.len() ==> on_map(w, h, #[trigger] queue@[k]),
            forall|k: int| 0 <= k < queue@.len() ==> reached@[flat(w, #[trigger] queue@[k])],
            forall|p: Position, q: Position|
                #![trigger reached@[flat(w, p)], adjacent(p, q)]
                on_map(w, h, p) && reached@[flat(w, p)] && !queue@.contains(p) && adjacent(p, q) && g.is_free(q)
                    ==> reached@[flat(w, q)],
        decreases cells@.len() - count_true(reached@), queue@.len(),
    {
        let ghost before = queue@;
        let ghost marked = reached@;
        proof {
            lemma_count_bound(reached@);
        }
        let cur = match queue.pop_front() {
            Some(cur) => cur,
            None => {
                return reached;
            },
        };
        assert(cur == before[0]);
        assert(on_map(w, h, before[0]) && reached@[flat(w, before[0])]);
        assert(connected(g, start, cur));
        assert forall|p: Position| p != cur && before.contains(p) implies #[trigger] queue@.contains(p) by {
            let k = choose|k: int| 0 <= k < before.len() && before[k] == p;
            assert(queue@[k - 1] == p);
        }
        assert forall|k: int| 0 <= k < queue@.len() implies on_map(w, h, #[trigger] queue@[k]) by {
            assert(queue@[k] == before[k + 1]);
        }
        assert forall|k: int| 0 <= k < queue@.len() implies reached@[flat(w, #[trigger] queue@[k])] by {
            assert(queue@[k] == before[k + 1]);
        }

        for dir in 0..4usize
            invariant
                w == width,
                h == height,
                g == cells_grid(width as nat, height as nat, cells@),
                on_map(w, h, start),
                on_map(w, h, cur),
                cells@.len() == width * height,
                width * height <= usize::MAX,
                reached@.len() == cells@.len(),
                reached@[flat(w, start)],
                connected(g, start, cur),
                count_true(reached@) >= count_true(marked),
                count_true(reached@) <= reached@.len(),
                count_true(reached@) == count_true(marked) ==> queue@.len() < before.len(),
                forall|p: Position|
                    #![trigger reached@[flat(w, p)]]
                    on_map(w, h, p) && reached@[flat(w, p)] ==> connected(g, start, p),
                forall|k: int| 0 <= k < queue@.len() ==> on_map(w, h, #[trigger] queue@[k]),
                forall|k: int| 0 <= k < queue@.len() ==> reached@[flat(w, #[trigger] queue@[k])],
                forall|p: Position, q: Position|
                    #![trigger reached@[flat(w, p)], adjacent(p, q)]
                    on_map(w, h, p) && p != cur && reached@[flat(w, p)] && !queue@.contains(p) && adjacent(p, q)
                        && g.is_free(q) ==> reached@[flat(w, q)],
                forall|d: int, q: Position|
                    #![trigger neighbor_of(w, h, cur, d), g.is_free(q)]
                    0 <= d < dir && neighbor_of(w, h, cur, d) == Some(q) && g.is_free(q) ==> reached@[flat(w, q)],
        {
            if let Some(next) = neighbor(width, height, cur, dir) {
                let idx = flat_index(width, height, next);
                proof {
                    lemma_flat(w, h, next);
                    assert(neighbor_of(w, h, cur, dir as int) == Some(next));
                    lemma_neighbors(w, h, cur, next);
                }
                if !reached[idx] && cells[idx] == Cell::Walkable {
                    let ghost queued = queue@;
                    let ghost was = reached@;
                    proof {
                        assert(g.is_free(next));
                        let k = choose|k: nat| walk(g, start, cur, k);
                        lemma_walk_step(g, start, cur, next, k);
                        lemma_flat_update(w, h, reached@, next, true);
                        lemma_count_set(reached@, idx as int);
                        lemma_count_bound(reached@.update(idx as int, true));
                    }
                    reached[idx] = true;
                    queue.push_back(next);
                    assert(connected(g, start, next));
                    proof {
                        assert(queue@[queue@.len() - 1] == next);
                        assert(queue@.contains(next));
                        assert forall|p: Position| queued.contains(p) implies #[trigger] queue@.contains(p) by {
                            let k = choose|k: int| 0 <= k < queued.len() && queued[k] == p;
                            assert(queue@[k] == p);
                        }
                        assert forall|k: int| 0 <= k < queue@.len() implies reached@[flat(w, #[trigger] queue@[k])] by {
                            if k < queued.len() {
                                assert(queue@[k] == queued[k]);
                                lemma_flat(w, h, queued[k]);
                            }
                        }
                        assert forall|p: Position, q: Position|
                            #![trigger reached@[flat(w, p)], adjacent(p, q)]
                            on_map(w, h, p) && p != cur && reached@[flat(w, p)] && !queue@.contains(p) && adjacent(p, q)
                                && g.is_free(q) implies reached@[flat(w, q)] by {
                            assert(p != next);
                            assert(was[flat(w, p)]);
                            assert(was[flat(w, q)]);
                        }
                    }
                }
            }
        }
        proof {
            assert forall|p: Position, q: Position|
                #![trigger reached@[flat(w, p)], adjacent(p, q)]
                on_map(w, h, p) && reached@[flat(w, p)] && !queue@.contains(p) && adjacent(p, q) && g.is_free(q)
                    implies reached@[flat(w, q)] by {
                if p == cur {
                    lemma_neighbors(w, h, p, q);
                    let d = choose|d: int| 0 <= d < 4 && #[trigger] neighbor_of(w, h, p, d) == Some(q);
                    assert(neighbor_of(w, h, cur, d) == Some(q));
                }
            }
        }
    }
    proof {
        assert forall|p: Position| #![trigger reached@[flat(w, p)]] on_map(w, h, p) && connected(g, start, p) implies reached@[flat(
            w,
            p,
        )] by {
            let k = choose|k: nat| walk(g, start, p, k);
            let held = |q: Position| on_map(w, h, q) && reached@[flat(w, q)];
            assert(held(start));
            assert forall|a: Position, b: Position|
                #![trigger held(a), adjacent(a, b)]
                held(a) && adjacent(a, b) && g.is_free(b) implies held(b) by {
                assert(reached@[flat(w, a)]);
            }
            lemma_closed_holds(g, start, p, k, held);
        }
    }
    reached
}

/// Marks `0`..`made` of the placed resources at their cells, and no others.
spec fn marks(resource_at: Seq<Option<usize>>, order: Seq<usize>, made: int) -> bool {
    &&& forall|j: int|
        #![trigger order[order.len() - 1 - j]]
        0 <= j < made ==> resource_at[order[order.len() - 1 - j] as int] == Some(j as usize)
    &&& forall|i: int|
        0 <= i < resource_at.len() ==> match #[trigger] resource_at[i] {
            Some(j) => j < made && order[order.len() - 1 - j] == i,
            None => true,
        }
}

impl World {
    /// The lookup table of resources agrees with the resources.
    pub closed spec fn indexed(&self) -> bool {
        &&& self.resource_at@.len() == self.width * self.height
        &&& forall|p: Position|
            #![trigger self.resource_at@[flat(self.width as int, p)]]
            on_map(self.width as int, self.height as int, p) ==> match self.resource_at@[flat(
                self.width as int,
                p,
            )] {
                Some(i) => self@.stands_at(i as int, p),
                None => forall|i: int| !self@.stands_at(i, p),
            }
    }

    /// What is true of every world.
    pub open spec fn wf(&self) -> bool {
        self.indexed() && self@.wf()
    }

    /// Generates the world of a seed. The terrain says of each cell, in
    /// row-major order, whether noise put an obstacle there, and of which
    /// biome.
    pub fn generate(seed: u64, config: WorldConfig, terrain: &Vec<Option<BiomeId>>) -> (made: Result<
        World,
        ConfigError,
    >)
        requires
            terrain@.len() == config.width * config.height,
        ensures
            match made {
                Ok(world) => {
                    &&& config.defect() is None
                    &&& world.wf()
                    &&& world@ == generated(seed, config, terrain@)
                    &&& world@.resources.len() == config.node_count(config.pool(config.ground(terrain@)).len())
                },
                Err(e) => config.defect() == Some(e),
            },
    {
        match validate_config(config) {
            Err(e) => {
                return Err(e);
            },
            Ok(()) => {},
        }
        let mut rng = seed_rng(seed);
        let (cells, _) = lay_ground(config, terrain);
        proof {
            lemma_base_is_free(config, terrain@);
        }
        let mut order = resource_candidates(config, &cells);
        let ghost found = order@;
        shuffle(&mut rng, &mut order);
        let ghost state = rng_state(rng);
        proof {
            broadcast use vstd::seq_lib::group_to_multiset_ensures;

            assert(order@.to_multiset().len() == found.to_multiset().len());
        }
        let (energy, crystal) = count_nodes(config, order.len());
        let total = energy + crystal;
        let mut quantities: Vec<u16> = Vec::with_capacity(total);
        for k in 0..total
            invariant
                rng_state(rng) == state_after(state, k as nat),
                quantities@ == drawn_quantities(state, k as nat),
                forall|j: int| 0 <= j < k ==> MIN_QUANTITY <= #[trigger] quantities@[j] <= MAX_QUANTITY,
        {
            quantities.push(random_between(&mut rng, MIN_QUANTITY, MAX_QUANTITY));
            assert(quantities@ =~= drawn_quantities(state, (k + 1) as nat));
        }
        Ok(World::arrange(config, terrain, &order, &quantities))
    }

    /// The world with resources of given quantities on candidates in a given
    /// order, where the order and the quantities make sense: the order names
    /// every candidate once, there is a quantity for each resource that is to be
    /// placed, and each quantity is in range.
    pub fn arrange(
        config: WorldConfig,
        terrain: &Vec<Option<BiomeId>>,
        order: &Vec<usize>,
        quantities: &Vec<u16>,
    ) -> (world: World)
        requires
            config.defect() is None,
            terrain@.len() == config.width * config.height,
            order@.to_multiset() == config.pool(config.ground(terrain@)).to_multiset(),
            quantities@.len() == config.node_count(order@.len()),
            forall|k: int| 0 <= k < quantities@.len() ==> MIN_QUANTITY <= #[trigger] quantities@[k] <= MAX_QUANTITY,
        ensures
            world.wf(),
            world@ == settled(config, terrain@, order@, quantities@),
    {
        let (cells, obstacle_biome) = lay_ground(config, terrain);
        let count = cells.len();
        proof {
            let found = config.pool(cells@);
            lemma_candidates(config.width as nat, config.height as nat, cells@, config.center(), count as nat);
            lemma_reordered(found, order@);
            assert forall|k: int| 0 <= k < order@.len() implies {
                let i = #[trigger] order@[k] as int;
                i < cells@.len() && is_candidate(config.width as nat, config.height as nat, cells@, config.center(), i)
            } by {
                assert(found.contains(order@[k]));
            }
        }
        let width = config.width;
        let height = config.height;
        let ghost w = width as int;
        let ghost h = height as int;
        let ghost g = cells_grid(width as nat, height as nat, cells@);
        let base = Position { x: width / 2, y: height / 2 };
        assert(8 * w <= w * h && 8 * h <= w * h) by (nonlinear_arith)
            requires
                8 <= w,
                8 <= h,
        ;
        proof {
            lemma_base_is_free(config, terrain@);
        }
        let (energy, crystal) = count_nodes(config, order.len());
        let total = energy + crystal;
        let mut resource_at: Vec<Option<usize>> = vec![None; count];
        let mut resources: Vec<ResourceNode> = Vec::with_capacity(total);
        for k in 0..total
            invariant
                count == width * height,
                w == width,
                h == height,
                0 < w,
                0 < h,
                total == quantities@.len(),
                total <= order@.len(),
                order@.no_duplicates(),
                forall|j: int| 0 <= j < order@.len() ==> #[trigger] order@[j] < count,
                resources@ == placed(w, order@, quantities@.take(k as int), energy as nat),
                resource_at@.len() == count,
                marks(resource_at@, order@, k as int),
        {
            let idx = order[order.len() - 1 - k];
            let kind = if k < energy {
                ResourceKind::Energy
            } else {
                ResourceKind::Crystal
            };
            resources.push(ResourceNode { kind, position: index_to_position(width, idx), quantity: quantities[k] });
            let ghost was = resource_at@;
            resource_at[idx] = Some(k);
            proof {
                assert(resources@ =~= placed(w, order@, quantities@.take(k + 1), energy as nat));
                assert forall|j: int|
                    #![trigger order@[order@.len() - 1 - j]]
                    0 <= j < k + 1 implies resource_at@[order@[order@.len() - 1 - j] as int] == Some(j as usize) by {
                    if j < k {
                        assert(order@[order@.len() - 1 - j] != order@[order@.len() - 1 - k]);
                    }
                }
                assert forall|i: int| 0 <= i < resource_at@.len() implies match #[trigger] resource_at@[i] {
                    Some(j) => j < k + 1 && order@[order@.len() - 1 - j] == i,
                    None => true,
                } by {
                    if i != idx {
                        assert(resource_at@[i] == was[i]);
                    }
                }
            }
        }
        assert(quantities@.take(total as int) =~= quantities@);

        let world = World { width, height, cells, obstacle_biome, resource_at, resources, base };
        proof {
            let view = world@;
            assert(view == settled(config, terrain@, order@, quantities@));
            assert(view.grid() == g);
            assert forall|i: int| 0 <= i < view.resources.len() implies view.placed_well(#[trigger] view.resources[i]) by {
                let idx = order@[order@.len() - 1 - i] as int;
                lemma_unflat(w, h, idx);
                assert(is_candidate(width as nat, height as nat, cells@, base, idx));
            }
            assert forall|i: int, j: int| 0 <= i < j < view.resources.len() implies #[trigger] view.resources[i].position
                != #[trigger] view.resources[j].position by {
                let a = order@[order@.len() - 1 - i] as int;
                let b = order@[order@.len() - 1 - j] as int;
                lemma_unflat(w, h, a);
                lemma_unflat(w, h, b);
            }
            assert forall|p: Position|
                #![trigger resource_at@[flat(w, p)]]
                on_map(w, h, p) implies match resource_at@[flat(w, p)] {
                Some(i) => view.stands_at(i as int, p),
                None => forall|i: int| !view.stands_at(i, p),
            } by {
                lemma_flat(w, h, p);
                if resource_at@[flat(w, p)] is None {
                    assert forall|i: int| !view.stands_at(i, p) by {
                        if view.stands_at(i, p) {
                            let idx = order@[order@.len() - 1 - i] as int;
                            lemma_unflat(w, h, idx);
                            assert(flat(w, p) == idx);
                        }
                    }
                }
            }
        }
        world
    }
}

/// The base of a fresh world is walkable.
proof fn lemma_base_is_free(config: WorldConfig, terrain: Seq<Option<BiomeId>>)
    requires
        config.defect() is None,
        terrain.len() == config.width * config.height,
    ensures
        cells_grid(config.width as nat, config.height as nat, config.ground(terrain)).is_free(config.center()),
{
    let base = config.center();
    let r = config.base_safety_radius as int;
    lemma_flat(config.width as int, config.height as int, base);
    assert(r * r >= 0) by (nonlinear_arith);
    assert(within(base, base, r));
}

/// The cells and the biomes of a world with a given terrain.
pub fn lay_ground(config: WorldConfig, terrain: &Vec<Option<BiomeId>>) -> (ground: (Vec<Cell>, Vec<BiomeId>))
    requires
        config.defect() is None,
        terrain@.len() == config.width * config.height,
    ensures
        ground.0@ == config.ground(terrain@),
        ground.1@ == terrain_biomes(terrain@),
{
    let count = terrain.len();
    let ghost w = config.width as int;
    let ghost h = config.height as int;
    assert(8 * w <= w * h && 8 * h <= w * h) by (nonlinear_arith)
        requires
            8 <= w,
            8 <= h,
    ;
    let mut cells: Vec<Cell> = Vec::with_capacity(count);
    let mut obstacle_biome: Vec<BiomeId> = Vec::with_capacity(count);
    for i in 0..count
        invariant
            count == terrain@.len(),
            cells@ == terrain_cells(terrain@).take(i as int),
            obstacle_biome@ == terrain_biomes(terrain@).take(i as int),
    {
        match terrain[i] {
            Some(biome) => {
                cells.push(Cell::Obstacle);
                obstacle_biome.push(biome);
            },
            None => {
                cells.push(Cell::Walkable);
                obstacle_biome.push(0);
            },
        }
        assert(cells@ =~= terrain_cells(terrain@).take(i + 1));
        assert(obstacle_biome@ =~= terrain_biomes(terrain@).take(i + 1));
    }
    assert(cells@ =~= terrain_cells(terrain@));
    assert(obstacle_biome@ =~= terrain_biomes(terrain@));
    let base = Position { x: config.width / 2, y: config.height / 2 };
    carve_base_safety_zone(&mut cells, config.width, config.height, base, config.base_safety_radius);
    (cells, obstacle_biome)
}

/// The cells that may hold a resource: walkable, reachable from the base, and
/// not the base itself.
pub fn resource_candidates(config: WorldConfig, cells: &Vec<Cell>) -> (pool: Vec<usize>)
    requires
        config.defect() is None,
        cells@.len() == config.width * config.height,
        cells_grid(config.width as nat, config.height as nat, cells@).is_free(config.center()),
    ensures
        pool@ == config.pool(cells@),
{
    let width = config.width;
    let height = config.height;
    let count = cells.len();
    let ghost w = width as int;
    let ghost h = height as int;
    let base = Position { x: width / 2, y: height / 2 };
    proof {
        lemma_flat(w, h, base);
    }
    let reachable = flood_fill_reachable(cells, width, height, base);
    let ghost g = cells_grid(width as nat, height as nat, cells@);
    let mut pool: Vec<usize> = Vec::new();
    for i in 0..count
        invariant
            count == width * height,
            count == cells@.len(),
            count == reachable@.len(),
            w == width,
            h == height,
            0 < w,
            0 < h,
            g == cells_grid(width as nat, height as nat, cells@),
            forall|p: Position|
                #![trigger reachable@[flat(w, p)]]
                on_map(w, h, p) ==> (reachable@[flat(w, p)] <==> connected(g, base, p)),
            pool@ == candidates(width as nat, height as nat, cells@, base, i as nat),
    {
        let p = index_to_position(width, i);
        proof {
            lemma_unflat(w, h, i as int);
            assert(reachable@[flat(w, p)] <==> connected(g, base, p));
        }
        if cells[i] == Cell::Walkable && reachable[i] && p != base {
            pool.push(i);
        }
    }
    pool
}

/// How many energy and how many crystal resources are placed where `available`
/// cells may hold one.
pub fn count_nodes(config: WorldConfig, available: usize) -> (counts: (usize, usize))
    ensures
        counts.0 == config.energy_count(available as nat),
        counts.0 + counts.1 == config.node_count(available as nat),
        counts.0 + counts.1 <= available,
{
    let energy = if config.energy_nodes <= available {
        config.energy_nodes
    } else {
        available
    };
    let left = available - energy;
    let crystal = if config.crystal_nodes <= left {
        config.crystal_nodes
    } else {
        left
    };
    (energy, crystal)
}

/// A resource is found where it stands, and found only there.
pub proof fn lemma_node_at(world: WorldView, i: int)
    requires
        world.wf(),
        0 <= i < world.resources.len(),
    ensures
        world.node_at(world.resources[i].position) == Some(world.resources[i]),
{
    let p = world.resources[i].position;
    assert(world.stands_at(i, p));
    let j = choose|j: int| world.stands_at(j, p);
    if i < j {
        assert(world.resources[i].position != world.resources[j].position);
    } else if j < i {
        assert(world.resources[j].position != world.resources[i].position);
    }
}

/// Every cell of a generated world within the safety radius of the base is
/// walkable.
pub proof fn law_base_zone_is_walkable(
    seed: u64,
    config: WorldConfig,
    terrain: Seq<Option<BiomeId>>,
    p: Position,
)
    requires
        config.defect() is None,
        terrain.len() == config.width * config.height,
        on_map(config.width as int, config.height as int, p),
        within(config.center(), p, config.base_safety_radius as int),
    ensures
        generated(seed, config, terrain).cell_at(p) == Some(Cell::Walkable),
{
    lemma_flat(config.width as int, config.height as int, p);
}

/// Outside the safety radius the cells of a generated world are those of the
/// terrain.
pub proof fn law_terrain_is_kept(
    seed: u64,
    config: WorldConfig,
    terrain: Seq<Option<BiomeId>>,
    p: Position,
)
    requires
        config.defect() is None,
        terrain.len() == config.width * config.height,
        on_map(config.width as int, config.height as int, p),
        !within(config.center(), p, config.base_safety_radius as int),
    ensures
        generated(seed, config, terrain).cell_at(p) == Some(
            if terrain[flat(config.width as int, p)] is Some {
                Cell::Obstacle
            } else {
                Cell::Walkable
            },
        ),
{
    lemma_flat(config.width as int, config.height as int, p);
}

impl World {
    pub fn width(&self) -> (width: usize)
        ensures
            width == self@.width,
    {
        self.width
    }

    pub fn height(&self) -> (height: usize)
        ensures
            height == self@.height,
    {
        self.height
    }

    pub fn base(&self) -> (base: Position)
        ensures
            base == self@.base,
    {
        self.base
    }

    pub fn resources(&self) -> (nodes: &[ResourceNode])
        ensures
            nodes@ == self@.resources,
    {
        self.resources.as_slice()
    }

    /// The cell at `position`, or `None` outside the map.
    pub fn cell(&self, position: Position) -> (cell: Option<Cell>)
        requires
            self.wf(),
        ensures
            cell == self@.cell_at(position),
    {
        match self.index(position) {
            Some(idx) => Some(self.cells[idx]),
            None => None,
        }
    }

    /// The resource placed at `position`, if there is one.
    pub fn resource_at(&self, position: Position) -> (node: Option<&ResourceNode>)
        requires
            self.wf(),
        ensures
            match node {
                Some(node) => self@.node_at(position) == Some(*node),
                None => self@.node_at(position) is None,
            },
    {
        match self.index(position) {
            Some(idx) => match self.resource_at[idx] {
                Some(i) => {
                    proof {
                        assert(self.resource_at@[flat(self.width as int, position)] == Some(i));
                        lemma_node_at(self@, i as int);
                    }
                    Some(&self.resources[i])
                },
                None => {
                    assert(self.resource_at@[flat(self.width as int, position)] is None);
                    None
                },
            },
            None => {
                proof {
                    assert forall|i: int| !self@.stands_at(i, position) by {
                        if self@.stands_at(i, position) {
                            assert(self@.placed_well(self@.resources[i]));
                        }
                    }
                }
                None
            },
        }
    }

    /// The biome of the obstacle at `position`, or `None` where there is no
    /// obstacle.
    pub fn obstacle_biome(&self, position: Position) -> (biome: Option<BiomeId>)
        requires
            self.wf(),
        ensures
            biome == if self@.cell_at(position) == Some(Cell::Obstacle) {
                Some(self@.biomes[flat(self@.width as int, position)])
            } else {
                None
            },
    {
        match self.index(position) {
            Some(idx) => {
                if self.cells[idx] == Cell::Obstacle {
                    Some(self.obstacle_biome[idx])
                } else {
                    None
                }
            },
            None => None,
        }
    }

    /// How many cells are obstacles.
    pub fn obstacle_count(&self) -> (count: usize)
        ensures
            count == count_obstacles(self@.cells),
    {
        let mut count: usize = 0;
        for i in 0..self.cells.len()
            invariant
                count == count_obstacles(self.cells@.take(i as int)),
                count <= i,
        {
            assert(self.cells@.take(i + 1).drop_last() =~= self.cells@.take(i as int));
            if self.cells[i] == Cell::Obstacle {
                count += 1;
            }
        }
        assert(self.cells@.take(self.cells@.len() as int) =~= self.cells@);
        count
    }

    /// The share of cells that are obstacles: how many, out of how many.
    pub fn obstacle_ratio(&self) -> (ratio: (usize, usize))
        ensures
            ratio.0 == count_obstacles(self@.cells),
            ratio.1 == self@.cells.len(),
    {
        (self.obstacle_count(), self.cells.len())
    }

    /// How many cells the map has.
    pub fn cell_count(&self) -> (count: usize)
        ensures
            count == self@.cells.len(),
    {
        self.cells.len()
    }

    fn index(&self, position: Position) -> (idx: Option<usize>)
        requires
            self@.wf(),
        ensures
            idx == if self@.holds(position) {
                Some(flat(self.width as int, position) as usize)
            } else {
                None
            },
            idx matches Some(i) ==> i == flat(self.width as int, position) && i < self.width * self.height,
    {
        if position.x >= self.width || position.y >= self.height {
            return None;
        }
        Some(flat_index(self.width, self.height, position))
    }
}

/// Resources stand on cells of their own, so that there are no more of them
/// than cells.
pub proof fn law_resources_fit_the_map(world: WorldView)
    requires
        world.wf(),
    ensures
        world.resources.len() <= world.cells.len(),
{
    let w = world.width as int;
    let h = world.height as int;
    let places = Seq::new(world.resources.len(), |i: int| flat(w, world.resources[i].position));
    assert forall|i: int, j: int| 0 <= i < j < places.len() implies places[i] != places[j] by {
        let p = world.resources[i].position;
        let q = world.resources[j].position;
        assert(world.placed_well(world.resources[i]) && world.placed_well(world.resources[j]));
        if places[i] == places[j] {
            lemma_flat_injective(w, h, p, q);
        }
    }
    places.unique_seq_to_set();
    vstd::set_lib::lemma_int_range(0, w * h);
    let cells = vstd::set_lib::set_int_range(0, w * h);
    assert forall|k: int| #[trigger] places.to_set().contains(k) implies cells.contains(k) by {
        let i = choose|i: int| 0 <= i < places.len() && places[i] == k;
        assert(world.placed_well(world.resources[i]));
        lemma_flat(w, h, world.resources[i].position);
    }
    vstd::set_lib::lemma_len_subset(places.to_set(), cells);
}

/// A configuration is refused where a side is under eight cells, the frequency
/// is not above zero and at most one, or the threshold is not between minus one
/// and one; the first of these that holds is the reason.
pub proof fn law_config_is_refused_for_a_reason(config: WorldConfig)
    ensures
        ({
            let small = config.width < 8 || config.height < 8;
            let frequency = config.obstacle_frequency <= 0 || config.obstacle_frequency > 1_000_000;
            let threshold = config.obstacle_threshold < -1_000_000 || config.obstacle_threshold > 1_000_000;
            &&& config.defect() == Some(ConfigError::TooSmall) <==> small
            &&& config.defect() == Some(ConfigError::ObstacleFrequency) <==> !small && frequency
            &&& config.defect() == Some(ConfigError::ObstacleThreshold) <==> !small && !frequency && threshold
            &&& config.defect() is None <==> !small && !frequency && !threshold
        }),
{
}

/// Energy is placed first, as much as is asked for and there is room; crystals
/// get what room is left. Nothing is left out while there is room.
pub proof fn law_resources_are_placed_while_there_is_room(config: WorldConfig, available: nat)
    ensures
        ({
            let energy = config.energy_count(available);
            let crystals = config.node_count(available) - energy;
            &&& 0 <= energy <= config.energy_nodes
            &&& 0 <= crystals <= config.crystal_nodes
            &&& energy + crystals <= available
            &&& energy < config.energy_nodes ==> energy == available
            &&& crystals < config.crystal_nodes ==> energy + crystals == available
        }),
{
}

/// The map has the size that is asked for, the base in its middle, and the
/// terrain's biome under every obstacle.
pub proof fn law_map_is_as_configured(seed: u64, config: WorldConfig, terrain: Seq<Option<BiomeId>>, p: Position)
    requires
        config.defect() is None,
        terrain.len() == config.width * config.height,
        on_map(config.width as int, config.height as int, p),
    ensures
        ({
            let world = generated(seed, config, terrain);
            let i = flat(config.width as int, p);
            &&& world.width == config.width
            &&& world.height == config.height
            &&& world.base.x == config.width / 2
            &&& world.base.y == config.height / 2
            &&& config.center() == world.base
            &&& world.cells.len() == terrain.len()
            &&& world.biomes.len() == terrain.len()
            &&& world.cell_at(p) == Some(Cell::Obstacle) ==> terrain[i] == Some(world.biomes[i])
        }),
{
    lemma_flat(config.width as int, config.height as int, p);
}

/// Placed resources take the candidates from the end of their order, one after
/// the other, with the quantities in theirs; the first are energy, as many as
/// there are of them, and the others are crystals.
pub proof fn law_placed_resources_follow_the_order(
    config: WorldConfig,
    terrain: Seq<Option<BiomeId>>,
    order: Seq<usize>,
    quantities: Seq<u16>,
    k: int,
)
    requires
        config.defect() is None,
        0 <= k < quantities.len() <= order.len(),
    ensures
        ({
            let nodes = settled(config, terrain, order, quantities).resources;
            let cell = order[order.len() - 1 - k];
            &&& nodes.len() == quantities.len()
            &&& nodes[k].quantity == quantities[k]
            &&& nodes[k].position.x == cell % config.width
            &&& nodes[k].position.y == cell / config.width
            &&& nodes[k].kind == ResourceKind::Energy <==> k < config.energy_nodes && k < order.len()
        }),
{
}

/// The candidates for resources are the walkable cells other than the base that
/// can be walked to from there, all of them, row by row.
pub proof fn law_candidates_are_the_reachable_cells(config: WorldConfig, cells: Seq<Cell>, p: Position)
    requires
        config.defect() is None,
        cells.len() == config.width * config.height <= usize::MAX,
        on_map(config.width as int, config.height as int, p),
    ensures
        ({
            let g = cells_grid(config.width as nat, config.height as nat, cells);
            let base = Position { x: (config.width / 2) as usize, y: (config.height / 2) as usize };
            let i = flat(config.width as int, p);
            config.pool(cells).contains(i as usize) <==> cells[i] == Cell::Walkable && p != base && connected(
                g,
                base,
                p,
            )
        }),
        forall|a: int, b: int|
            0 <= a < b < config.pool(cells).len() ==> #[trigger] config.pool(cells)[a] < #[trigger] config.pool(
                cells,
            )[b],
{
    let w = config.width as nat;
    let h = config.height as nat;
    let all = (w * h) as nat;
    lemma_flat(w as int, h as int, p);
    lemma_candidates_in_order(w, h, cells, config.center(), all, flat(w as int, p));
}

proof fn lemma_candidates_in_order(width: nat, height: nat, cells: Seq<Cell>, base: Position, upto: nat, i: int)
    requires
        upto <= usize::MAX,
        0 <= i <= usize::MAX,
    ensures
        candidates(width, height, cells, base, upto).contains(i as usize) <==> i < upto && is_candidate(
            width,
            height,
            cells,
            base,
            i,
        ),
        forall|a: int|
            0 <= a < candidates(width, height, cells, base, upto).len() ==> #[trigger] candidates(
                width,
                height,
                cells,
                base,
                upto,
            )[a] < upto,
        forall|a: int, b: int|
            0 <= a < b < candidates(width, height, cells, base, upto).len() ==> #[trigger] candidates(
                width,
                height,
                cells,
                base,
                upto,
            )[a] < #[trigger] candidates(width, height, cells, base, upto)[b],
    decreases upto,
{
    if upto > 0 {
        let before = candidates(width, height, cells, base, (upto - 1) as nat);
        let found = candidates(width, height, cells, base, upto);
        lemma_candidates_in_order(width, height, cells, base, (upto - 1) as nat, i);
        if found.contains(i as usize) {
            let k = choose|k: int| 0 <= k < found.len() && found[k] == i as usize;
            if k < before.len() {
                assert(before[k] == found[k]);
                assert(before.contains(i as usize));
            }
        }
        if i < upto && is_candidate(width, height, cells, base, i) {
            if i == upto - 1 {
                assert(found[found.len() - 1] == i as usize);
            } else {
                let k = choose|k: int| 0 <= k < before.len() && before[k] == i as usize;
                assert(found[k] == i as usize);
            }
        }
        assert forall|a: int| 0 <= a < found.len() implies #[trigger] found[a] < upto by {
            if a < before.len() {
                assert(before[a] == found[a]);
            }
        }
        assert forall|a: int, b: int| 0 <= a < b < found.len() implies #[trigger] found[a] < #[trigger] found[b] by {
            assert(before[a] == found[a]);
            if b < before.len() {
                assert(before[b] == found[b]);
            }
        }
    }
}

/// Every resource gets a quantity of its own: the generator, seeded once, first
/// shuffles the candidates and then draws from 50 to 200 once for each resource,
/// each time in the state that the draw before left behind. Gives that chain of
/// states.
pub proof fn law_quantities_are_drawn_one_after_the_other(
    seed: u64,
    config: WorldConfig,
    terrain: Seq<Option<BiomeId>>,
) -> (states: Seq<Seq<u8>>)
    requires
        config.defect() is None,
        terrain.len() == config.width * config.height,
    ensures
        ({
            let world = generated(seed, config, terrain);
            let order = shuffled(seeded_state(seed), config.pool(world.cells)).0;
            &&& states.len() == world.resources.len() + 1
            &&& states[0] == shuffled(seeded_state(seed), config.pool(world.cells)).1
            &&& world.resources.len() == config.node_count(order.len())
            &&& forall|k: int|
                0 <= k < world.resources.len() ==> {
                    &&& (#[trigger] world.resources[k]).quantity == drawn_between(states[k], 50, 200).0
                    &&& states[k + 1] == drawn_between(states[k], 50, 200).1
                    &&& world.resources[k].position.x == order[order.len() - 1 - k] % config.width
                    &&& world.resources[k].position.y == order[order.len() - 1 - k] / config.width
                }
        }),
{
    let world = generated(seed, config, terrain);
    let state = shuffled(seeded_state(seed), config.pool(config.ground(terrain))).1;
    Seq::new(world.resources.len() + 1, |k: int| state_after(state, k as nat))
}

/// A cell is free to walk on where it is walkable; off the map nothing is.
pub proof fn law_walkable_cells_are_free(world: WorldView, p: Position)
    requires
        world.wf(),
    ensures
        world.grid().is_free(p) <==> p.x < world.width && p.y < world.height && world.cells[p.y * world.width + p.x]
            == Cell::Walkable,
        world.cell_at(p) is None <==> p.x >= world.width || p.y >= world.height,
        world.cell_at(p) matches Some(cell) ==> cell == world.cells[p.y * world.width + p.x],
{
    if world.holds(p) {
        lemma_flat(world.width as int, world.height as int, p);
    }
}

/// A resource is found where one stands, and nowhere else.
pub proof fn law_resources_are_found_where_they_stand(world: WorldView, p: Position)
    requires
        world.wf(),
    ensures
        world.node_at(p) matches Some(node) ==> node.position == p && world.resources.contains(node),
        world.node_at(p) is None <==> forall|i: int|
            0 <= i < world.resources.len() ==> (#[trigger] world.resources[i]).position != p,
{
    if world.node_at(p) is Some {
        let i = choose|i: int| world.stands_at(i, p);
        assert(world.resources[i] == world.node_at(p)->0);
    } else {
        assert forall|i: int| 0 <= i < world.resources.len() implies (#[trigger] world.resources[i]).position != p by {
            assert(!world.stands_at(i, p));
        }
    }
}

/// Every obstacle counts once, and nothing else does.
pub proof fn law_obstacles_add_up(cells: Seq<Cell>, cell: Cell)
    ensures
        count_obstacles(Seq::<Cell>::empty()) == 0,
        count_obstacles(cells.push(cell)) == count_obstacles(cells) + if cell == Cell::Obstacle {
            1int
        } else {
            0
        },
{
    assert(cells.push(cell).drop_last() =~= cells);
}

} // verus!
