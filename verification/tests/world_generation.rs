use noise::{NoiseFn, Perlin};
use resource_collection_simulation::world::{
    carve_base_safety_zone, count_nodes, flood_fill_reachable, index_to_position, lay_ground, resource_candidates,
    validate_config, within_radius, Cell, ConfigError, Position, ResourceKind, World, WorldConfig,
};

fn micros(value: i64) -> f64 {
    value as f64 / 1_000_000.0
}

fn fbm(perlin: &Perlin, x: f64, y: f64, base_frequency: f64, octaves: u32) -> f64 {
    let mut value = 0.0;
    let mut amplitude = 1.0;
    let mut frequency = base_frequency;
    let mut max_value = 0.0;
    for _ in 0..octaves {
        value += amplitude * perlin.get([x * frequency, y * frequency]);
        max_value += amplitude;
        amplitude *= 0.5;
        frequency *= 2.0;
    }
    value / max_value
}

fn terrain(seed: u64, config: &WorldConfig) -> Vec<Option<u8>> {
    let perlin = Perlin::new(seed as u32);
    let mut cells = Vec::with_capacity(config.width * config.height);
    for y in 0..config.height {
        for x in 0..config.width {
            let sample = fbm(&perlin, x as f64, y as f64, micros(config.obstacle_frequency), 3);
            if sample > micros(config.obstacle_threshold) {
                let biome = perlin.get([x as f64 * 0.015, y as f64 * 0.015]);
                cells.push(Some(((biome + 1.0) * 127.5).clamp(0.0, 255.0) as u8));
            } else {
                cells.push(None);
            }
        }
    }
    cells
}

fn generate(seed: u64, config: WorldConfig) -> World {
    let cells = terrain(seed, &config);
    World::generate(seed, config, &cells).expect("world generation should succeed")
}

fn flat_map(width: usize, height: usize) -> WorldConfig {
    WorldConfig {
        width,
        height,
        base_safety_radius: 0,
        energy_nodes: 2,
        crystal_nodes: 3,
        ..WorldConfig::default()
    }
}

#[test]
fn obstacle_ratio_stays_in_reasonable_bounds() {
    let config = WorldConfig::default();
    let mut min_ratio = f64::MAX;
    let mut max_ratio = f64::MIN;

    for seed in 0..100_u64 {
        let world = generate(seed, config);
        let (obstacles, cells) = world.obstacle_ratio();
        let ratio = obstacles as f64 / cells as f64;
        min_ratio = min_ratio.min(ratio);
        max_ratio = max_ratio.max(ratio);
    }

    assert!(min_ratio >= 0.08, "min_ratio = {min_ratio}");
    assert!(max_ratio <= 0.60, "max_ratio = {max_ratio}");
}

#[test]
fn resources_never_spawn_on_obstacles() {
    let world = generate(42, WorldConfig::default());

    for resource in world.resources() {
        let cell = world
            .cell(resource.position)
            .expect("resource position should always be in-bounds");
        assert_eq!(cell, Cell::Walkable);
    }
}

#[test]
fn resource_quantity_is_within_bounds() {
    let world = generate(1337, WorldConfig::default());

    assert!(!world.resources().is_empty());
    for resource in world.resources() {
        assert!((50..=200).contains(&resource.quantity));
    }
}

#[test]
fn base_safety_radius_is_walkable() {
    let config = WorldConfig::default();
    let world = generate(99, config);
    let base = world.base();
    let r2 = (config.base_safety_radius * config.base_safety_radius) as isize;

    for y in 0..world.height() {
        for x in 0..world.width() {
            let dx = x as isize - base.x as isize;
            let dy = y as isize - base.y as isize;
            if dx * dx + dy * dy <= r2 {
                let cell = world.cell(Position { x, y }).expect("position should be in-bounds");
                assert_eq!(cell, Cell::Walkable);
            }
        }
    }
}

#[test]
fn generation_is_deterministic_for_same_seed() {
    let config = WorldConfig::default();
    let world_a = generate(2026, config);
    let world_b = generate(2026, config);
    assert_eq!(world_a, world_b);
}

#[test]
fn generation_timing_metrics() {
    let config = WorldConfig::default();
    let runs = 150;
    let mut samples_ms = Vec::with_capacity(runs);

    for seed in 0..runs as u64 {
        let start = std::time::Instant::now();
        let world = generate(seed, config);
        assert!(world.cell_count() > 0);
        samples_ms.push(start.elapsed().as_secs_f64() * 1000.0);
    }

    samples_ms.sort_by(f64::total_cmp);
    let mean_ms = samples_ms.iter().sum::<f64>() / samples_ms.len() as f64;
    let p95_idx = ((samples_ms.len() as f64) * 0.95).ceil() as usize - 1;
    let p95_ms = samples_ms[p95_idx.min(samples_ms.len() - 1)];

    println!(
        "world_generation_ms mean={mean_ms:.4} p95={p95_ms:.4} runs={runs}"
    );
}

#[test]
fn different_seeds_place_resources_differently() {
    let config = flat_map(20, 20);
    let open = vec![None; 400];
    let a = World::generate(1, config, &open).expect("valid");
    let b = World::generate(2, config, &open).expect("valid");
    let places_a: Vec<Position> = a.resources().iter().map(|n| n.position).collect();
    let places_b: Vec<Position> = b.resources().iter().map(|n| n.position).collect();
    assert_ne!(places_a, places_b);
    let quantities_a: Vec<u16> = a.resources().iter().map(|n| n.quantity).collect();
    let quantities_b: Vec<u16> = b.resources().iter().map(|n| n.quantity).collect();
    assert_ne!(quantities_a, quantities_b);
}

#[test]
fn resources_are_shuffled_over_the_map() {
    let config = WorldConfig { energy_nodes: 5, crystal_nodes: 5, ..flat_map(20, 20) };
    let world = World::generate(3, config, &vec![None; 400]).expect("valid");
    let last_rows: Vec<usize> = world.resources().iter().map(|n| n.position.y).collect();
    assert!(last_rows.iter().any(|y| *y < 19), "without a shuffle all would lie in the last row");
}

#[test]
fn energy_is_placed_before_crystals() {
    let world = World::generate(5, flat_map(10, 10), &vec![None; 100]).expect("valid");
    let kinds: Vec<ResourceKind> = world.resources().iter().map(|n| n.kind).collect();
    assert_eq!(
        kinds,
        vec![
            ResourceKind::Energy,
            ResourceKind::Energy,
            ResourceKind::Crystal,
            ResourceKind::Crystal,
            ResourceKind::Crystal
        ]
    );
}

#[test]
fn unreachable_cells_hold_no_resource() {
    // A wall from top to bottom cuts off the right edge of the map.
    let config = WorldConfig { energy_nodes: 100, crystal_nodes: 100, ..flat_map(10, 10) };
    let cells: Vec<Option<u8>> = (0..100).map(|i| if i % 10 == 8 { Some(7) } else { None }).collect();
    let world = World::generate(11, config, &cells).expect("valid");
    assert_eq!(world.resources().len(), 79);
    for node in world.resources() {
        assert!(node.position.x < 8);
        assert_ne!(node.position, world.base());
    }
}

#[test]
fn fewer_resources_where_space_is_short() {
    let config = WorldConfig { energy_nodes: 3, crystal_nodes: 9, ..flat_map(8, 8) };
    let mut cells: Vec<Option<u8>> = vec![Some(0); 64];
    for idx in [36, 37, 38, 35, 34] {
        cells[idx] = None;
    }
    let world = World::generate(1, config, &cells).expect("valid");
    assert_eq!(world.base(), Position { x: 4, y: 4 });
    assert_eq!(world.resources().len(), 4);
    assert_eq!(world.resources().iter().filter(|n| n.kind == ResourceKind::Energy).count(), 3);
}

#[test]
fn biomes_belong_to_obstacles_only() {
    let mut cells: Vec<Option<u8>> = vec![None; 64];
    cells[3] = Some(200);
    let world = World::generate(1, flat_map(8, 8), &cells).expect("valid");
    assert_eq!(world.obstacle_biome(Position { x: 3, y: 0 }), Some(200));
    assert_eq!(world.obstacle_biome(Position { x: 4, y: 0 }), None);
    assert_eq!(world.obstacle_biome(Position { x: 8, y: 0 }), None);
    assert_eq!(world.obstacle_count(), 1);
    assert_eq!(world.obstacle_ratio(), (1, 64));
    assert_eq!(world.cell_count(), 64);
    assert_eq!(world.cell(Position { x: 3, y: 0 }), Some(Cell::Obstacle));
    assert_eq!(world.cell(Position { x: 0, y: 8 }), None);
}

#[test]
fn resource_lookup_finds_every_node() {
    let world = World::generate(21, flat_map(12, 9), &vec![None; 108]).expect("valid");
    for node in world.resources() {
        assert_eq!(world.resource_at(node.position), Some(node));
    }
    assert_eq!(world.resource_at(world.base()), None);
    assert_eq!(world.resource_at(Position { x: 12, y: 0 }), None);
}

#[test]
fn small_worlds_are_refused() {
    let narrow = WorldConfig { width: 7, ..WorldConfig::default() };
    assert_eq!(validate_config(narrow), Err(ConfigError::TooSmall));
    assert_eq!(ConfigError::TooSmall.message(), "world dimensions must be at least 8x8");
    let low = WorldConfig { height: 7, ..WorldConfig::default() };
    let refused = World::generate(1, low, &vec![None; 96 * 7]);
    assert_eq!(refused.err(), Some(ConfigError::TooSmall));
}

#[test]
fn frequencies_outside_the_unit_interval_are_refused() {
    for frequency in [0, -1, 1_000_001] {
        let config = WorldConfig { obstacle_frequency: frequency, ..WorldConfig::default() };
        assert_eq!(validate_config(config), Err(ConfigError::ObstacleFrequency));
    }
    let edge = WorldConfig { obstacle_frequency: 1_000_000, ..WorldConfig::default() };
    assert_eq!(validate_config(edge), Ok(()));
    assert_eq!(ConfigError::ObstacleFrequency.message(), "obstacle_frequency must be in (0.0, 1.0]");
}

#[test]
fn thresholds_beyond_one_are_refused() {
    for threshold in [-1_000_001, 1_000_001] {
        let config = WorldConfig { obstacle_threshold: threshold, ..WorldConfig::default() };
        assert_eq!(validate_config(config), Err(ConfigError::ObstacleThreshold));
    }
    for threshold in [-1_000_000, 1_000_000] {
        let config = WorldConfig { obstacle_threshold: threshold, ..WorldConfig::default() };
        assert_eq!(validate_config(config), Ok(()));
    }
    assert_eq!(ConfigError::ObstacleThreshold.message(), "obstacle_threshold must be in [-1.0, 1.0]");
}

#[test]
fn default_config_is_balanced() {
    let config = WorldConfig::default();
    assert_eq!((config.width, config.height), (96, 40));
    assert_eq!((config.energy_nodes, config.crystal_nodes), (14, 14));
    assert_eq!(config.base_safety_radius, 5);
    assert_eq!(micros(config.obstacle_threshold), 0.05);
    assert_eq!(micros(config.obstacle_frequency), 0.06);
}

#[test]
fn carving_clears_a_disc() {
    let mut cells = vec![Cell::Obstacle; 81];
    carve_base_safety_zone(&mut cells, 9, 9, Position { x: 4, y: 4 }, 2);
    let cleared = cells.iter().filter(|c| **c == Cell::Walkable).count();
    assert_eq!(cleared, 13);
    assert_eq!(cells[4 * 9 + 2], Cell::Walkable);
    assert_eq!(cells[3 * 9 + 2], Cell::Obstacle);
}

#[test]
fn flood_fill_stops_at_walls() {
    let mut cells = vec![Cell::Walkable; 25];
    for y in 0..5 {
        cells[y * 5 + 3] = Cell::Obstacle;
    }
    let reached = flood_fill_reachable(&cells, 5, 5, Position { x: 0, y: 0 });
    assert_eq!(reached.iter().filter(|r| **r).count(), 15);
    assert!(!reached[4]);
}

#[test]
fn flood_fill_from_off_the_map_reaches_nothing() {
    let cells = vec![Cell::Walkable; 25];
    assert_eq!(flood_fill_reachable(&cells, 5, 5, Position { x: 5, y: 0 }), vec![false; 25]);
    assert_eq!(flood_fill_reachable(&cells, 5, 5, Position { x: 0, y: 5 }), vec![false; 25]);
}

#[test]
fn radius_is_measured_in_a_straight_line() {
    let center = Position { x: 5, y: 5 };
    assert!(within_radius(center, Position { x: 8, y: 9 }, 5));
    assert!(!within_radius(center, Position { x: 9, y: 9 }, 5));
    assert_eq!(index_to_position(10, 37), Position { x: 7, y: 3 });
}

#[test]
fn resources_are_placed_from_the_end_of_the_order() {
    let config = WorldConfig { energy_nodes: 1, crystal_nodes: 2, ..flat_map(8, 8) };
    let mut cells: Vec<Option<u8>> = vec![Some(0); 64];
    for idx in [34, 35, 36, 37, 38] {
        cells[idx] = None;
    }
    let (ground, biomes) = lay_ground(config, &cells);
    assert_eq!(ground.iter().filter(|c| **c == Cell::Walkable).count(), 5);
    assert_eq!(biomes, vec![0; 64]);
    assert_eq!(resource_candidates(config, &ground), vec![34, 35, 37, 38]);
    let world = World::arrange(config, &cells, &vec![35, 38, 34, 37], &vec![50, 120, 200]);
    let nodes: Vec<(ResourceKind, usize, usize, u16)> =
        world.resources().iter().map(|n| (n.kind, n.position.x, n.position.y, n.quantity)).collect();
    assert_eq!(
        nodes,
        vec![
            (ResourceKind::Energy, 5, 4, 50),
            (ResourceKind::Crystal, 2, 4, 120),
            (ResourceKind::Crystal, 6, 4, 200),
        ]
    );
}

#[test]
fn node_counts_are_capped_by_the_space() {
    let config = WorldConfig { energy_nodes: 3, crystal_nodes: 4, ..WorldConfig::default() };
    assert_eq!(count_nodes(config, 10), (3, 4));
    assert_eq!(count_nodes(config, 5), (3, 2));
    assert_eq!(count_nodes(config, 2), (2, 0));
    assert_eq!(count_nodes(config, 0), (0, 0));
}
