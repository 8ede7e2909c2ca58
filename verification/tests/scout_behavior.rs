use noise::{NoiseFn, Perlin};
use resource_collection_simulation::channel::SendOutcome;
use resource_collection_simulation::scout::{Bearings, Discovery, Scout, ScoutConfig, ScoutMessage};
use resource_collection_simulation::wave::step_toward;
use resource_collection_simulation::world::{Cell, Position, World, WorldConfig};
use std::f64::consts::{PI, TAU};
use tokio::sync::mpsc;

fn micros(value: i64) -> f64 {
    value as f64 / 1_000_000.0
}

fn fbm(perlin: &Perlin, x: f64, y: f64, base_frequency: f64, octaves: u32) -> f64 {
    let mut value = 0.0;
    let mut amplitude = 1.0;
    let mut frequency = base_frequency;
    let mut max_value = 0.0;
    for _ in 0..octaves {
        value += amplitude * perlin.get([x * frequency, y * frequency]);
        max_value += amplitude;
        amplitude *= 0.5;
        frequency *= 2.0;
    }
    value / max_value
}

fn terrain(seed: u64, config: &WorldConfig) -> Vec<Option<u8>> {
    let perlin = Perlin::new(seed as u32);
    let mut cells = Vec::with_capacity(config.width * config.height);
    for y in 0..config.height {
        for x in 0..config.width {
            let sample = fbm(&perlin, x as f64, y as f64, micros(config.obstacle_frequency), 3);
            if sample > micros(config.obstacle_threshold) {
                let biome = perlin.get([x as f64 * 0.015, y as f64 * 0.015]);
                cells.push(Some(((biome + 1.0) * 127.5).clamp(0.0, 255.0) as u8));
            } else {
                cells.push(None);
            }
        }
    }
    cells
}

fn generate(seed: u64, config: WorldConfig) -> World {
    let cells = terrain(seed, &config);
    World::generate(seed, config, &cells).expect("world generation should succeed")
}

fn angle_diff(a: f64, b: f64) -> f64 {
    let d = (a - b).abs() % TAU;
    if d > PI {
        TAU - d
    } else {
        d
    }
}

fn angle_from(home: Position, goal: Position) -> f64 {
    let dx = goal.x as f64 - home.x as f64;
    let dy = goal.y as f64 - home.y as f64;
    dy.atan2(dx).rem_euclid(TAU)
}

fn bearings(world: &World, home: Position, preferred: f64) -> Bearings {
    let mut penalty = Vec::with_capacity(world.cell_count());
    let mut inside = Vec::with_capacity(world.cell_count());
    for y in 0..world.height() {
        for x in 0..world.width() {
            let diff = angle_diff(angle_from(home, Position { x, y }), preferred);
            penalty.push(((diff / PI) * 10.0) as u8);
            inside.push(diff <= TAU / 8.0);
        }
    }
    Bearings { penalty, inside }
}

fn new_scout(id: u16, world: &World, config: ScoutConfig, seed: u64, tx: mpsc::Sender<ScoutMessage>) -> Scout {
    let facing = bearings(world, world.base(), (id as f64 / 4.0) * TAU);
    Scout::new(id, world.base(), world, config, seed, facing, tx)
}

fn tick_scout(scout: &mut Scout, world: &World) {
    if let Some(goal) = scout.tick(world) {
        let facing = bearings(world, scout.home(), angle_from(scout.home(), goal));
        scout.turn(world, facing);
    }
}

/// Helper: create a world and a single scout with a receiver.
fn setup(seed: u64) -> (World, Scout, mpsc::Receiver<ScoutMessage>) {
    let config = WorldConfig::default();
    let world = generate(seed, config);
    let (tx, rx) = mpsc::channel(64);
    let scout = new_scout(0, &world, ScoutConfig::default(), seed, tx);
    (world, scout, rx)
}

#[test]
fn scout_starts_at_base() {
    let (world, scout, _rx) = setup(42);
    assert_eq!(scout.position(), world.base());
}

#[test]
fn scout_never_moves_onto_obstacle() {
    let (world, mut scout, _rx) = setup(42);

    for _ in 0..500 {
        tick_scout(&mut scout, &world);
        let cell = world
            .cell(scout.position())
            .expect("scout should be in-bounds");
        assert_eq!(cell, Cell::Walkable, "scout landed on obstacle at {:?}", scout.position());
    }
}

#[test]
fn scout_explores_cells_over_time() {
    let (world, mut scout, _rx) = setup(42);

    for _ in 0..200 {
        tick_scout(&mut scout, &world);
    }

    // After 200 ticks the scout should have explored significantly more
    // than just the starting cell.
    assert!(
        scout.stats.cells_explored > 20,
        "cells_explored = {}",
        scout.stats.cells_explored
    );
}

#[test]
fn frontier_bias_prefers_unexplored_cells() {
    // With random_move_probability = 0, every move should prefer unexplored
    // neighbors. We test that the scout explores faster than pure random.
    let config = WorldConfig::default();
    let world = generate(42, config);
    let (tx, _rx) = mpsc::channel(64);
    let scout_config = ScoutConfig {
        random_move_probability: 0,
        ..ScoutConfig::default()
    };
    let mut scout = new_scout(0, &world, scout_config, 42, tx);

    for _ in 0..100 {
        tick_scout(&mut scout, &world);
    }

    // Deterministic: with zero randomness and frontier bias, exploration
    // should be efficient.
    assert!(
        scout.stats.cells_explored > 50,
        "frontier-biased explored only {}",
        scout.stats.cells_explored
    );
}

#[test]
fn discovery_batch_is_flushed_and_received() {
    let (world, mut scout, mut rx) = setup(42);

    // Run enough ticks for the scout to leave the base safety zone and
    // encounter obstacles or resources on the wider map.
    for _ in 0..200 {
        tick_scout(&mut scout, &world);
    }

    // Sanity check: the scout must have found at least some discoveries.
    assert!(
        scout.stats.discoveries_total > 0,
        "scout made no discoveries after 200 ticks (cells_explored={})",
        scout.stats.cells_explored
    );

    // Drain messages.
    let mut total_discoveries = 0_usize;
    while let Ok(msg) = rx.try_recv() {
        assert_eq!(msg.scout_id, 0);
        total_discoveries += msg.discoveries.len();
    }

    assert!(
        total_discoveries > 0,
        "expected at least one discovery in channel (scout discoveries_total={})",
        scout.stats.discoveries_total
    );
}

#[test]
fn backpressure_counts_dropped_messages() {
    let config = WorldConfig::default();
    let world = generate(42, config);
    // Channel capacity = 1, so most sends should be dropped.
    let (tx, _rx) = mpsc::channel(1);
    let scout_config = ScoutConfig {
        batch_capacity: 1,
        flush_interval: 1,
        ..ScoutConfig::default()
    };
    let mut scout = new_scout(0, &world, scout_config, 42, tx);

    for _ in 0..100 {
        tick_scout(&mut scout, &world);
    }

    // We don't drain, so after the buffer fills, sends should fail.
    // At least some should be dropped.
    assert!(
        scout.stats.messages_sent + scout.stats.messages_dropped > 0,
        "expected message activity"
    );
}

#[test]
fn scout_stays_in_bounds() {
    // Use a small world to quickly hit boundaries.
    let config = WorldConfig {
        width: 10,
        height: 10,
        obstacle_threshold: 900_000, // very few obstacles
        base_safety_radius: 1,
        energy_nodes: 1,
        crystal_nodes: 1,
        ..WorldConfig::default()
    };
    let world = generate(42, config);
    let (tx, _rx) = mpsc::channel(64);
    let mut scout = new_scout(0, &world, ScoutConfig::default(), 42, tx);

    for _ in 0..500 {
        tick_scout(&mut scout, &world);
        assert!(scout.position().x < world.width());
        assert!(scout.position().y < world.height());
    }
}

#[test]
fn scout_tick_timing_metrics() {
    let config = WorldConfig::default();
    let world = generate(42, config);
    let num_scouts = 4_u16;
    let ticks = 1000_u64;
    let (tx, _rx) = mpsc::channel(256);

    let mut scouts: Vec<Scout> = (0..num_scouts)
        .map(|id| new_scout(id, &world, ScoutConfig::default(), 100 + id as u64, tx.clone()))
        .collect();
    drop(tx);

    let mut tick_samples_us = Vec::with_capacity(ticks as usize);

    for _ in 0..ticks {
        let start = std::time::Instant::now();
        for scout in &mut scouts {
            tick_scout(scout, &world);
        }
        tick_samples_us.push(start.elapsed().as_nanos() as f64 / 1000.0);
    }

    tick_samples_us.sort_by(f64::total_cmp);
    let mean = tick_samples_us.iter().sum::<f64>() / tick_samples_us.len() as f64;
    let p95_idx = ((tick_samples_us.len() as f64) * 0.95).ceil() as usize - 1;
    let p95 = tick_samples_us[p95_idx.min(tick_samples_us.len() - 1)];

    println!(
        "scout_tick_us mean={mean:.2} p95={p95:.2} scouts={num_scouts} ticks={ticks}"
    );

    // After 1000 ticks, verify exploration progress.
    let total_explored: u64 = scouts.iter().map(|s| s.stats.cells_explored).sum();
    assert!(total_explored > 200, "total_explored={total_explored}");
}

fn open_world(width: usize, height: usize, energy: usize) -> World {
    let config = WorldConfig {
        width,
        height,
        base_safety_radius: 0,
        energy_nodes: energy,
        crystal_nodes: 0,
        ..WorldConfig::default()
    };
    World::generate(9, config, &vec![None; width * height]).expect("valid")
}

fn steady(batch_capacity: usize, flush_interval: u32) -> ScoutConfig {
    ScoutConfig { batch_capacity, flush_interval, random_move_probability: 0 }
}

#[test]
fn scout_defaults() {
    let config = ScoutConfig::default();
    assert_eq!(config.batch_capacity, 8);
    assert_eq!(config.flush_interval, 5);
    assert_eq!(config.random_move_probability, 150_000);
}

#[test]
fn scout_looks_at_its_neighbors_each_tick() {
    let world = open_world(20, 20, 0);
    let (tx, _rx) = mpsc::channel(8);
    let mut scout = new_scout(0, &world, steady(8, 5), 1, tx);
    assert_eq!(scout.stats.cells_explored, 1);
    tick_scout(&mut scout, &world);
    assert_eq!(scout.stats.cells_explored, 5);
    assert_eq!(scout.stats.ticks, 1);
    let gap = scout.position().x.abs_diff(world.base().x) + scout.position().y.abs_diff(world.base().y);
    assert_eq!(gap, 1);
}

#[test]
fn scout_heads_for_its_own_sector() {
    let world = open_world(40, 40, 0);
    let base = world.base();
    let ends: Vec<Position> = (0..4)
        .map(|id| {
            let (tx, _rx) = mpsc::channel(8);
            let mut scout = new_scout(id, &world, steady(8, 5), 1, tx);
            for _ in 0..8 {
                tick_scout(&mut scout, &world);
            }
            scout.position()
        })
        .collect();
    assert!(ends[0].x > base.x, "{ends:?}");
    assert!(ends[1].y > base.y, "{ends:?}");
    assert!(ends[2].x < base.x, "{ends:?}");
    assert!(ends[3].y < base.y, "{ends:?}");
}

#[test]
fn scout_run_is_determined_by_its_seed() {
    let world = open_world(30, 30, 5);
    let mut runs = Vec::new();
    for seed in [7, 7, 8] {
        let (tx, _rx) = mpsc::channel(512);
        let mut scout = new_scout(1, &world, ScoutConfig::default(), seed, tx);
        let mut trail = Vec::new();
        for _ in 0..120 {
            tick_scout(&mut scout, &world);
            trail.push(scout.position());
        }
        runs.push(trail);
    }
    assert_eq!(runs[0], runs[1]);
    assert_ne!(runs[0], runs[2]);
}

#[test]
fn certain_random_moves_draw_among_the_exits() {
    let world = open_world(12, 12, 0);
    let (tx, _rx) = mpsc::channel(8);
    let config = ScoutConfig { random_move_probability: 1_000_000, ..ScoutConfig::default() };
    let mut scout = new_scout(0, &world, config, 3, tx);
    let mut steps = Vec::new();
    for _ in 0..60 {
        let before = scout.position();
        tick_scout(&mut scout, &world);
        let after = scout.position();
        assert_eq!(after.x.abs_diff(before.x) + after.y.abs_diff(before.y), 1);
        steps.push((after.x as i64 - before.x as i64, after.y as i64 - before.y as i64));
    }
    for way in [(0, -1), (1, 0), (0, 1), (-1, 0)] {
        assert!(steps.contains(&way), "no step {way:?}");
    }
}

#[test]
fn scout_with_an_exit_never_stands_still() {
    for seed in 0..4 {
        let (world, mut scout, mut rx) = setup(seed);
        for _ in 0..400 {
            let before = scout.position();
            tick_scout(&mut scout, &world);
            let after = scout.position();
            assert_eq!(after.x.abs_diff(before.x) + after.y.abs_diff(before.y), 1);
            while rx.try_recv().is_ok() {}
        }
    }
}

#[test]
fn scout_without_an_exit_stays() {
    let config = WorldConfig {
        width: 12,
        height: 12,
        base_safety_radius: 0,
        energy_nodes: 0,
        crystal_nodes: 0,
        ..WorldConfig::default()
    };
    let world = World::generate(9, config, &vec![Some(0); 144]).expect("valid");
    for random_move_probability in [0, 1_000_000] {
        let (tx, _rx) = mpsc::channel(8);
        let config = ScoutConfig { random_move_probability, ..ScoutConfig::default() };
        let mut scout = new_scout(0, &world, config, 3, tx);
        for _ in 0..10 {
            tick_scout(&mut scout, &world);
            assert_eq!(scout.position(), world.base());
        }
    }
}

#[test]
fn full_channel_hands_discoveries_back() {
    // Nothing is walkable but a short corridor, so obstacles abound.
    let config = WorldConfig {
        width: 9,
        height: 9,
        base_safety_radius: 0,
        energy_nodes: 0,
        crystal_nodes: 0,
        ..WorldConfig::default()
    };
    let mut cells: Vec<Option<u8>> = vec![Some(0); 81];
    for x in 2..7 {
        cells[4 * 9 + x] = None;
    }
    let world = World::generate(1, config, &cells).expect("valid");
    let (tx, mut rx) = mpsc::channel(1);
    let mut scout = new_scout(0, &world, steady(1, 1), 1, tx);
    for _ in 0..12 {
        tick_scout(&mut scout, &world);
    }
    assert_eq!(scout.stats.messages_sent, 1);
    assert!(scout.stats.messages_dropped > 0);
    let mut found: Vec<Discovery> = rx.try_recv().expect("first batch").discoveries;
    // The channel is free again: all that was held back arrives at once.
    tick_scout(&mut scout, &world);
    assert_eq!(scout.stats.messages_sent, 2);
    found.extend(rx.try_recv().expect("second batch").discoveries);
    assert_eq!(found.len() as u64, scout.stats.discoveries_total);
    for d in &found {
        match d {
            Discovery::Obstacle { position } => assert_eq!(world.cell(*position), Some(Cell::Obstacle)),
            Discovery::Resource { .. } => panic!("there is no resource"),
        }
    }
    assert_eq!(found.len(), 12);
}

#[test]
fn closed_channel_costs_the_batch() {
    let world = open_world(16, 16, 120);
    let (tx, rx) = mpsc::channel(4);
    drop(rx);
    let mut scout = new_scout(0, &world, steady(1, 1), 1, tx);
    for _ in 0..10 {
        tick_scout(&mut scout, &world);
    }
    assert_eq!(scout.stats.messages_sent, 0);
    assert!(scout.stats.messages_dropped > 0);
}

#[test]
fn settling_books_each_outcome() {
    let world = open_world(16, 16, 0);
    let (tx, _rx) = mpsc::channel(4);
    let mut scout = new_scout(3, &world, steady(8, 5), 1, tx);
    scout.settle(SendOutcome::Sent);
    assert_eq!((scout.stats.messages_sent, scout.stats.messages_dropped), (1, 0));
    scout.settle(SendOutcome::Full(ScoutMessage { scout_id: 3, discoveries: Vec::new() }));
    assert_eq!((scout.stats.messages_sent, scout.stats.messages_dropped), (1, 1));
    scout.settle(SendOutcome::Closed(ScoutMessage { scout_id: 3, discoveries: Vec::new() }));
    assert_eq!((scout.stats.messages_sent, scout.stats.messages_dropped), (1, 2));
}

#[test]
fn resources_are_reported_with_their_kind() {
    let world = open_world(12, 12, 100);
    let (tx, mut rx) = mpsc::channel(64);
    let mut scout = new_scout(0, &world, steady(8, 5), 1, tx);
    for _ in 0..30 {
        tick_scout(&mut scout, &world);
    }
    let mut seen = 0;
    while let Ok(msg) = rx.try_recv() {
        for d in msg.discoveries {
            match d {
                Discovery::Resource { position, kind } => {
                    let node = world.resource_at(position).expect("a resource");
                    assert_eq!(node.kind, kind);
                    seen += 1;
                }
                Discovery::Obstacle { .. } => panic!("there is no obstacle"),
            }
        }
    }
    assert!(seen > 10);
}

#[test]
fn scout_that_knows_everything_has_seen_all_reachable_cells() {
    let world = open_world(10, 8, 0);
    let (tx, _rx) = mpsc::channel(64);
    let mut scout = new_scout(0, &world, steady(8, 5), 1, tx);
    for _ in 0..2_000 {
        tick_scout(&mut scout, &world);
    }
    assert_eq!(scout.stats.cells_explored, 80);
}

#[test]
fn scout_turns_when_its_sector_is_exhausted() {
    let world = open_world(80, 80, 0);
    let (tx, _rx) = mpsc::channel(64);
    // No cell lies in the sector, so the scout keeps missing it.
    let nothing = Bearings { penalty: vec![0; 6_400], inside: vec![false; 6_400] };
    let mut scout = Scout::new(0, world.base(), &world, steady(8, 5), 1, nothing, tx);
    let mut turned_at = None;
    for tick in 0..20_000_u32 {
        if let Some(goal) = scout.tick(&world) {
            assert!(goal.x < 80 && goal.y < 80);
            turned_at = Some(tick);
            let before = scout.position();
            scout.turn(&world, bearings(&world, scout.home(), angle_from(scout.home(), goal)));
            let after = scout.position();
            assert_eq!(after.x.abs_diff(before.x) + after.y.abs_diff(before.y), 1);
            assert_eq!(scout.stats.ticks, u64::from(tick) + 1);
            break;
        }
    }
    let tick = turned_at.expect("the scout asks to be turned");
    assert!(tick >= 200, "{tick}");
}

#[test]
fn first_step_goes_around_obstacles() {
    // ..#..
    // S.#.G   the wall has a gap in the last row only
    // ..#..
    // .....
    let explored = vec![true; 20];
    let mut wall = vec![false; 20];
    for y in 0..3 {
        wall[y * 5 + 2] = true;
    }
    let start = Position { x: 0, y: 1 };
    let goal = Position { x: 4, y: 1 };
    // East comes before south.
    assert_eq!(step_toward(&explored, &wall, 5, 4, start, goal), Some(Position { x: 1, y: 1 }));
    let nearer = Position { x: 1, y: 1 };
    assert_eq!(step_toward(&explored, &wall, 5, 4, nearer, goal), Some(Position { x: 1, y: 2 }));
    // Without the gap there is no way.
    wall[17] = true;
    assert_eq!(step_toward(&explored, &wall, 5, 4, start, goal), None);
    assert_eq!(step_toward(&explored, &wall, 5, 4, start, start), None);
}

#[test]
fn first_step_keeps_to_explored_cells() {
    let mut explored = vec![false; 9];
    for i in [0, 3, 6, 7, 8] {
        explored[i] = true;
    }
    let clear = vec![false; 9];
    let start = Position { x: 0, y: 0 };
    let goal = Position { x: 2, y: 2 };
    assert_eq!(step_toward(&explored, &clear, 3, 3, start, goal), Some(Position { x: 0, y: 1 }));
    assert_eq!(step_toward(&explored, &clear, 3, 3, start, Position { x: 2, y: 0 }), None);
}

#[test]
fn first_step_prefers_north_then_east_then_south_then_west() {
    let explored = vec![true; 25];
    let clear = vec![false; 25];
    let center = Position { x: 2, y: 2 };
    let steps: Vec<Option<Position>> = [(4, 0), (4, 4), (0, 4), (0, 0)]
        .iter()
        .map(|(x, y)| step_toward(&explored, &clear, 5, 5, center, Position { x: *x, y: *y }))
        .collect();
    assert_eq!(
        steps,
        vec![
            Some(Position { x: 2, y: 1 }),
            Some(Position { x: 3, y: 2 }),
            Some(Position { x: 2, y: 3 }),
            Some(Position { x: 2, y: 1 }),
        ]
    );
}

#[test]
fn straying_is_what_the_draw_decides() {
    let world = open_world(30, 30, 0);
    let mut ends = Vec::new();
    for stray in [false, true] {
        let (tx, _rx) = mpsc::channel(8);
        // The draw would never let this scout stray.
        let mut scout = new_scout(0, &world, steady(8, 5), 4, tx);
        for _ in 0..10 {
            assert_eq!(scout.tick_on(&world, stray), None);
        }
        assert_eq!(scout.stats.ticks, 10);
        ends.push(scout.position());
    }
    assert!(ends[0].x > world.base().x + 4, "{ends:?}");
    assert_ne!(ends[0], ends[1]);
}
