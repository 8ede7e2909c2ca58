use noise::{NoiseFn, Perlin};
use resource_collection_simulation::occupancy::{resolve, OccupancyGrid};
use resource_collection_simulation::world::{Cell, Position, World, WorldConfig};

fn micros(value: i64) -> f64 {
    value as f64 / 1_000_000.0
}

fn fbm(perlin: &Perlin, x: f64, y: f64, base_frequency: f64, octaves: u32) -> f64 {
    let mut value = 0.0;
    let mut amplitude = 1.0;
    let mut frequency = base_frequency;
    let mut max_value = 0.0;
    for _ in 0..octaves {
        value += amplitude * perlin.get([x * frequency, y * frequency]);
        max_value += amplitude;
        amplitude *= 0.5;
        frequency *= 2.0;
    }
    value / max_value
}

fn terrain(seed: u64, config: &WorldConfig) -> Vec<Option<u8>> {
    let perlin = Perlin::new(seed as u32);
    let mut cells = Vec::with_capacity(config.width * config.height);
    for y in 0..config.height {
        for x in 0..config.width {
            let sample = fbm(&perlin, x as f64, y as f64, micros(config.obstacle_frequency), 3);
            if sample > micros(config.obstacle_threshold) {
                let biome = perlin.get([x as f64 * 0.015, y as f64 * 0.015]);
                cells.push(Some(((biome + 1.0) * 127.5).clamp(0.0, 255.0) as u8));
            } else {
                cells.push(None);
            }
        }
    }
    cells
}

fn generate(seed: u64, config: WorldConfig) -> World {
    let cells = terrain(seed, &config);
    World::generate(seed, config, &cells).expect("world generation should succeed")
}

fn open_world(energy: usize) -> World {
    let config = WorldConfig {
        width: 10,
        height: 10,
        energy_nodes: energy,
        crystal_nodes: 0,
        ..WorldConfig::default()
    };
    World::generate(4, config, &vec![None; 100]).expect("world gen")
}

#[test]
fn base_always_free() {
    let world = generate(1, WorldConfig::default());
    let mut grid = OccupancyGrid::new(&world);
    let base = world.base();

    // Reserve base — always succeeds.
    assert!(grid.try_reserve(base));
    // Second reservation also succeeds (base is exempt).
    assert!(grid.try_reserve(base));
    // Releasing base is a no-op.
    grid.release(base);
    // Still can reserve.
    assert!(grid.try_reserve(base));
}

#[test]
fn normal_cell_cannot_be_double_reserved() {
    let world = generate(42, WorldConfig::default());
    let mut grid = OccupancyGrid::new(&world);

    // Find a walkable cell that isn't the base.
    let pos = Position { x: 10, y: 10 };
    if world.cell(pos) != Some(Cell::Walkable) {
        return; // skip if obstacle
    }

    assert!(grid.try_reserve(pos));
    assert!(grid.is_occupied(pos));
    // Second reservation fails.
    assert!(!grid.try_reserve(pos));

    grid.release(pos);
    assert!(!grid.is_occupied(pos));
    // Now it works again.
    assert!(grid.try_reserve(pos));
}

#[test]
fn find_vacant_returns_walkable_neighbor() {
    let world = generate(7, WorldConfig::default());
    let grid = OccupancyGrid::new(&world);
    let base = world.base();

    // Pick a walkable cell near the base.
    let pos = Position {
        x: base.x + 1,
        y: base.y,
    };
    if world.cell(pos) != Some(Cell::Walkable) {
        return;
    }

    let found = grid.find_vacant_near(pos, pos, &world);
    let Some(f) = found else {
        panic!("should find at least one walkable neighbor");
    };
    assert_eq!(world.cell(f), Some(Cell::Walkable));
    // Should be a cardinal neighbor.
    let dx = f.x.abs_diff(pos.x);
    let dy = f.y.abs_diff(pos.y);
    assert!(dx + dy == 1, "should be adjacent, got ({},{})", f.x, f.y);
}

#[test]
fn backward_pos_goes_opposite_to_desired() {
    let from = Position { x: 5, y: 5 };
    let desired = Position { x: 7, y: 5 }; // moving right
    let back = OccupancyGrid::backward_pos(from, desired);
    assert_eq!(back, Some(Position { x: 4, y: 5 })); // should back left

    let desired_up = Position { x: 5, y: 3 }; // moving up
    let back_up = OccupancyGrid::backward_pos(from, desired_up);
    assert_eq!(back_up, Some(Position { x: 5, y: 6 })); // should back down
}

#[test]
fn backward_pos_stops_at_the_edge() {
    let corner = Position { x: 0, y: 0 };
    assert_eq!(OccupancyGrid::backward_pos(corner, Position { x: 1, y: 0 }), None);
    assert_eq!(OccupancyGrid::backward_pos(corner, corner), None);
}

#[test]
fn free_cell_is_taken_as_wanted() {
    let world = open_world(0);
    let mut grid = OccupancyGrid::new(&world);
    let old = Position { x: 1, y: 1 };
    let mut position = Position { x: 2, y: 1 };
    resolve(&mut position, old, &mut grid, &world);
    assert_eq!(position, Position { x: 2, y: 1 });
    assert!(grid.is_occupied(position));
    assert!(!grid.is_occupied(old));
}

#[test]
fn taken_cell_makes_a_robot_step_aside() {
    let world = open_world(0);
    let mut grid = OccupancyGrid::new(&world);
    let old = Position { x: 1, y: 1 };
    let wanted = Position { x: 2, y: 1 };
    assert!(grid.try_reserve(wanted));
    let mut position = wanted;
    resolve(&mut position, old, &mut grid, &world);
    // North and south are equally near to what was wanted; north comes first.
    assert_eq!(position, Position { x: 1, y: 0 });
    assert!(grid.is_occupied(position));
}

#[test]
fn robots_queue_at_a_claimed_resource() {
    let world = open_world(1);
    let node = world.resources()[0].position;
    let mut grid = OccupancyGrid::new(&world);
    assert!(grid.try_reserve(node));
    let old = Position { x: if node.x > 0 { node.x - 1 } else { node.x + 1 }, y: node.y };
    let mut position = node;
    resolve(&mut position, old, &mut grid, &world);
    assert_eq!(position, old);
}

#[test]
fn boxed_in_robot_backs_off_or_stays() {
    let world = open_world(0);
    let mut grid = OccupancyGrid::new(&world);
    let old = Position { x: 2, y: 2 };
    for p in [
        Position { x: 2, y: 1 },
        Position { x: 3, y: 2 },
        Position { x: 2, y: 3 },
        Position { x: 1, y: 2 },
    ] {
        assert!(grid.try_reserve(p));
    }
    let mut position = Position { x: 3, y: 2 };
    resolve(&mut position, old, &mut grid, &world);
    assert_eq!(position, old);
    // Two steps apart on both axes, the way back is a free diagonal cell.
    let mut far = Position { x: 4, y: 4 };
    assert!(grid.try_reserve(far));
    grid.release(old);
    resolve(&mut far, old, &mut grid, &world);
    assert_eq!(far, Position { x: 1, y: 1 });
}

#[test]
fn off_map_cells_cannot_be_reserved() {
    let world = open_world(0);
    let mut grid = OccupancyGrid::new(&world);
    let outside = Position { x: 0, y: 10 };
    assert!(!grid.try_reserve(outside));
    assert!(grid.is_occupied(outside));
    grid.release(outside);
    assert!(grid.is_occupied(outside));
}

#[test]
fn clearing_frees_every_cell() {
    let world = open_world(0);
    let mut grid = OccupancyGrid::new(&world);
    let p = Position { x: 9, y: 0 };
    assert!(grid.try_reserve(p));
    grid.clear();
    assert!(!grid.is_occupied(p));
}
