use noise::{NoiseFn, Perlin};
use resource_collection_simulation::collector::{
    Collector, CollectorConfig, CollectorMessage, CollectorState, CollectorStats,
};
use resource_collection_simulation::nearest::{nth_nearest, sort_by_distance};
use resource_collection_simulation::open_set::{AStarNode, OpenSet};
use resource_collection_simulation::search::Pathfinder;
use resource_collection_simulation::simulation::Simulation;
use resource_collection_simulation::world::{Cell, Position, ResourceKind, World, WorldConfig};
use tokio::sync::mpsc;

fn micros(value: i64) -> f64 {
    value as f64 / 1_000_000.0
}

fn fbm(perlin: &Perlin, x: f64, y: f64, base_frequency: f64, octaves: u32) -> f64 {
    let mut value = 0.0;
    let mut amplitude = 1.0;
    let mut frequency = base_frequency;
    let mut max_value = 0.0;
    for _ in 0..octaves {
        value += amplitude * perlin.get([x * frequency, y * frequency]);
        max_value += amplitude;
        amplitude *= 0.5;
        frequency *= 2.0;
    }
    value / max_value
}

fn terrain(seed: u64, config: &WorldConfig) -> Vec<Option<u8>> {
    let perlin = Perlin::new(seed as u32);
    let mut cells = Vec::with_capacity(config.width * config.height);
    for y in 0..config.height {
        for x in 0..config.width {
            let sample = fbm(&perlin, x as f64, y as f64, micros(config.obstacle_frequency), 3);
            if sample > micros(config.obstacle_threshold) {
                let biome = perlin.get([x as f64 * 0.015, y as f64 * 0.015]);
                cells.push(Some(((biome + 1.0) * 127.5).clamp(0.0, 255.0) as u8));
            } else {
                cells.push(None);
            }
        }
    }
    cells
}

fn generate(seed: u64, config: WorldConfig) -> World {
    let cells = terrain(seed, &config);
    World::generate(seed, config, &cells).expect("world generation should succeed")
}

#[test]
fn collector_collects_and_unloads() {
    let world = generate(7, WorldConfig::default());
    let base = world.base();
    let cell_count = world.cell_count();
    let mut sim = Simulation::new(world);
    sim.reveal_all();
    let (tx, mut rx) = mpsc::channel(16);
    let mut collector = Collector::new(0, base, CollectorConfig::default(), cell_count, tx);

    for _ in 0..2500 {
        collector.tick(&mut sim);
        while let Ok(msg) = rx.try_recv() {
            sim.unload(msg.kind, msg.amount);
        }
    }

    let inv = sim.base_inventory;
    let unloaded = inv.energy + inv.crystals;
    assert!(unloaded > 0, "collector did not unload any resource");
    assert_eq!(collector.stats.unloaded_units, unloaded);
}

#[test]
fn collector_never_steps_on_obstacle() {
    let world = generate(11, WorldConfig::default());
    let base = world.base();
    let cell_count = world.cell_count();
    let mut sim = Simulation::new(world);
    sim.reveal_all();
    let (tx, mut rx) = mpsc::channel(16);
    let mut collector = Collector::new(0, base, CollectorConfig::default(), cell_count, tx);

    for _ in 0..1500 {
        collector.tick(&mut sim);
        while let Ok(msg) = rx.try_recv() {
            sim.unload(msg.kind, msg.amount);
        }
        let cell = sim
            .world
            .cell(collector.position)
            .expect("collector position should stay in-bounds");
        assert_eq!(cell, Cell::Walkable);
    }
}

#[test]
fn collector_replans_on_events_not_every_tick() {
    let world = generate(9, WorldConfig::default());
    let base = world.base();
    let cell_count = world.cell_count();
    let mut sim = Simulation::new(world);
    sim.reveal_all();
    let (tx, mut rx) = mpsc::channel(16);
    let mut collector = Collector::new(
        0,
        base,
        CollectorConfig {
            carry_capacity: 8,
        },
        cell_count,
        tx,
    );
    let ticks = 2000_u64;

    for _ in 0..ticks {
        collector.tick(&mut sim);
        while let Ok(msg) = rx.try_recv() {
            sim.unload(msg.kind, msg.amount);
        }
    }

    assert!(
        collector.stats.replans < ticks / 6,
        "replans={} ticks={ticks}",
        collector.stats.replans
    );
}

#[test]
fn collector_tick_timing_metrics() {
    let world = generate(42, WorldConfig::default());
    let base = world.base();
    let cell_count = world.cell_count();
    let mut sim = Simulation::new(world);
    sim.reveal_all();
    let (tx, mut rx) = mpsc::channel(64);
    let num_collectors = 4_u16;
    let ticks = 1200_u64;

    let mut collectors: Vec<Collector> = (0..num_collectors)
        .map(|id| Collector::new(id, base, CollectorConfig::default(), cell_count, tx.clone()))
        .collect();
    drop(tx);

    let mut samples_us = Vec::with_capacity(ticks as usize);
    for _ in 0..ticks {
        let start = std::time::Instant::now();
        for collector in &mut collectors {
            collector.tick(&mut sim);
        }
        while let Ok(msg) = rx.try_recv() {
            sim.unload(msg.kind, msg.amount);
        }
        samples_us.push(start.elapsed().as_nanos() as f64 / 1000.0);
    }

    samples_us.sort_by(f64::total_cmp);
    let mean = samples_us.iter().sum::<f64>() / samples_us.len() as f64;
    let p95_idx = ((samples_us.len() as f64) * 0.95).ceil() as usize - 1;
    let p95 = samples_us[p95_idx.min(samples_us.len() - 1)];

    println!(
        "collector_tick_us mean={mean:.2} p95={p95:.2} collectors={num_collectors} ticks={ticks}"
    );

    let total_unloaded: u64 = collectors.iter().map(|c| c.stats.unloaded_units).sum();
    assert!(total_unloaded > 0, "collectors unloaded no resources");
}

fn open_world(width: usize, height: usize, energy: usize, crystal: usize) -> World {
    let config = WorldConfig {
        width,
        height,
        base_safety_radius: 0,
        energy_nodes: energy,
        crystal_nodes: crystal,
        ..WorldConfig::default()
    };
    World::generate(9, config, &vec![None; width * height]).expect("valid")
}

fn distance(a: Position, b: Position) -> usize {
    a.x.abs_diff(b.x) + a.y.abs_diff(b.y)
}

#[test]
fn collector_defaults() {
    assert_eq!(CollectorConfig::default().carry_capacity, 16);
    assert_eq!(
        CollectorStats::default(),
        CollectorStats { ticks: 0, moves: 0, replans: 0, collected_units: 0, unloaded_units: 0 }
    );
}

#[test]
fn one_trip_to_the_only_resource() {
    let world = open_world(12, 12, 1, 0);
    let base = world.base();
    let node = world.resources()[0];
    let way = distance(base, node.position) as u64;
    let mut sim = Simulation::new(world);
    sim.reveal_all();
    let (tx, mut rx) = mpsc::channel(4);
    let mut collector = Collector::new(2, base, CollectorConfig::default(), 144, tx);

    for _ in 0..way {
        assert_eq!(collector.state, CollectorState::Seeking);
        collector.tick(&mut sim);
    }
    assert_eq!(collector.position, node.position);
    assert_eq!(collector.stats.replans, 1);
    collector.tick(&mut sim);
    assert_eq!(collector.state, CollectorState::Collecting);
    for taken in 1..=16_u16 {
        collector.tick(&mut sim);
        assert_eq!(sim.stock_remaining_at(node.position), node.quantity - taken);
    }
    assert_eq!(collector.state, CollectorState::Returning);
    assert_eq!(
        collector.unload_message(),
        Some(CollectorMessage { collector_id: 2, kind: ResourceKind::Energy, amount: 16 })
    );
    for _ in 0..way {
        collector.tick(&mut sim);
    }
    assert_eq!(collector.position, base);
    collector.tick(&mut sim);
    assert_eq!(collector.state, CollectorState::Unloading);
    assert!(rx.try_recv().is_err());
    collector.tick(&mut sim);
    assert_eq!(collector.state, CollectorState::Seeking);
    assert_eq!(
        rx.try_recv().ok(),
        Some(CollectorMessage { collector_id: 2, kind: ResourceKind::Energy, amount: 16 })
    );
    assert_eq!(collector.unload_message(), None);
    assert_eq!(collector.stats.moves, 2 * way);
    assert_eq!(collector.stats.collected_units, 16);
    assert_eq!(collector.stats.unloaded_units, 16);
}

#[test]
fn idle_collector_wakes_when_a_resource_is_discovered() {
    let world = open_world(40, 40, 1, 0);
    let base = world.base();
    let node = world.resources()[0];
    assert!(distance(base, node.position) > 5, "the resource must start hidden");
    let mut sim = Simulation::new(world);
    let (tx, _rx) = mpsc::channel(4);
    let mut collector = Collector::new(1, base, CollectorConfig::default(), 1600, tx);
    collector.tick(&mut sim);
    assert_eq!(collector.state, CollectorState::Idle);
    collector.tick(&mut sim);
    assert_eq!(collector.state, CollectorState::Idle);
    sim.mark_resource_discovered(node.position);
    collector.tick(&mut sim);
    assert_eq!(collector.state, CollectorState::Seeking);
    assert_eq!(collector.position, base);
}

#[test]
fn units_are_conserved_while_collecting() {
    let world = open_world(16, 16, 2, 2);
    let base = world.base();
    let mut sim = Simulation::new(world);
    sim.reveal_all();
    let placed = sim.total_remaining();
    let (tx, mut rx) = mpsc::channel(16);
    let mut collectors: Vec<Collector> = (0..3)
        .map(|id| Collector::new(id, base, CollectorConfig { carry_capacity: 5 }, 256, tx.clone()))
        .collect();
    for _ in 0..6_000 {
        for c in &mut collectors {
            c.tick(&mut sim);
        }
        while let Ok(msg) = rx.try_recv() {
            sim.unload(msg.kind, msg.amount);
        }
        let carried: u64 = collectors.iter().map(|c| c.stats.collected_units - c.stats.unloaded_units).sum();
        let delivered = sim.base_inventory.energy + sim.base_inventory.crystals;
        assert_eq!(sim.total_remaining() + carried + delivered, placed);
    }
    assert_eq!(sim.total_remaining(), 0);
    assert_eq!(sim.base_inventory.energy + sim.base_inventory.crystals, placed);
    for c in &collectors {
        assert_eq!(c.state, CollectorState::Idle);
    }
}

#[test]
fn refused_announcement_still_empties_the_hold() {
    let world = open_world(12, 12, 1, 0);
    let base = world.base();
    let mut sim = Simulation::new(world);
    sim.reveal_all();
    let (tx, rx) = mpsc::channel(1);
    drop(rx);
    let mut collector = Collector::new(0, base, CollectorConfig { carry_capacity: 1 }, 144, tx);
    for _ in 0..400 {
        collector.tick(&mut sim);
    }
    assert!(collector.stats.unloaded_units > 0);
    assert_eq!(sim.base_inventory.energy, 0);
}

#[test]
fn collectors_spread_over_the_nearest_targets() {
    let world = open_world(30, 30, 10, 0);
    let base = world.base();
    let targets: Vec<Position> = world.resources().iter().map(|n| n.position).collect();
    let near = sort_by_distance(&targets, base);
    let mut picked = Vec::new();
    for id in 0..40 {
        let mut sim = Simulation::new(world.clone());
        sim.reveal_all();
        let (tx, _rx) = mpsc::channel(4);
        let mut collector = Collector::new(id, base, CollectorConfig::default(), 900, tx);
        while collector.state != CollectorState::Collecting {
            collector.tick(&mut sim);
        }
        assert!(near[..3].contains(&collector.position), "{:?}", collector.position);
        picked.push(collector.position);
    }
    for target in &near[..3] {
        assert!(picked.contains(target), "nobody went to {target:?}");
    }
}

#[test]
fn targets_are_sorted_stably() {
    let from = Position { x: 5, y: 5 };
    let a = Position { x: 5, y: 7 };
    let b = Position { x: 7, y: 5 };
    let c = Position { x: 5, y: 6 };
    let d = Position { x: 3, y: 5 };
    let far = Position { x: 0, y: 0 };
    let targets = vec![far, a, b, c, d];
    assert_eq!(sort_by_distance(&targets, from), vec![c, a, b, d, far]);
    assert_eq!(nth_nearest(&targets, from, 0), c);
    assert_eq!(nth_nearest(&targets, from, 2), b);
    assert_eq!(sort_by_distance(&Vec::new(), from), Vec::new());
}

#[test]
fn planned_path_leads_around_a_wall() {
    let config = WorldConfig {
        width: 9,
        height: 9,
        base_safety_radius: 0,
        energy_nodes: 0,
        crystal_nodes: 0,
        ..WorldConfig::default()
    };
    let mut cells: Vec<Option<u8>> = vec![None; 81];
    for y in 0..8 {
        cells[y * 9 + 6] = Some(0);
    }
    let world = World::generate(1, config, &cells).expect("valid");
    let mut finder = Pathfinder::new(81);
    let start = Position { x: 4, y: 4 };
    let goal = Position { x: 8, y: 4 };
    let path = finder.plan(&world, start, goal).expect("there is a way");
    assert_eq!(path.len(), 12);
    assert_eq!(path[11], goal);
    assert!(path.len() >= distance(start, goal));
    let mut at = start;
    for step in &path {
        assert_eq!(distance(at, *step), 1);
        assert_eq!(world.cell(*step), Some(Cell::Walkable));
        at = *step;
    }
    assert_eq!(finder.plan(&world, start, start), Some(Vec::new()));
    // An obstacle cannot be reached, and the buffers serve again afterwards.
    assert_eq!(finder.plan(&world, start, Position { x: 6, y: 0 }), None);
    assert_eq!(finder.plan(&world, goal, start).map(|p| p.len()), Some(12));
}

#[test]
fn walled_in_goal_is_unreachable() {
    let config = WorldConfig {
        width: 9,
        height: 9,
        base_safety_radius: 0,
        energy_nodes: 0,
        crystal_nodes: 0,
        ..WorldConfig::default()
    };
    let mut cells: Vec<Option<u8>> = vec![None; 81];
    for y in 0..9 {
        cells[y * 9 + 6] = Some(0);
    }
    let world = World::generate(1, config, &cells).expect("valid");
    let (tx, _rx) = mpsc::channel(1);
    let mut collector = Collector::new(0, world.base(), CollectorConfig::default(), 81, tx);
    assert!(!collector.plan_path(&world, world.base(), Position { x: 8, y: 8 }));
    assert!(collector.plan_path(&world, world.base(), Position { x: 0, y: 0 }));
    assert!(collector.plan_path(&world, world.base(), world.base()));
}

#[test]
fn shortest_way_is_found_past_a_tempting_one() {
    let config = WorldConfig {
        width: 8,
        height: 8,
        base_safety_radius: 0,
        energy_nodes: 0,
        crystal_nodes: 0,
        ..WorldConfig::default()
    };
    let mut cells: Vec<Option<u8>> = vec![Some(0); 64];
    for (x, y) in [
        (0, 1), (0, 2), (0, 3), (0, 4), (0, 5), (0, 6),
        (1, 1), (2, 1), (3, 1),
        (1, 3), (1, 4), (1, 5), (1, 6), (2, 6), (3, 6),
    ] {
        cells[y * 8 + x] = None;
    }
    let world = World::generate(1, config, &cells).expect("valid");
    let start = Position { x: 0, y: 6 };
    let goal = Position { x: 3, y: 1 };
    let mut finder = Pathfinder::new(64);
    let path = finder.plan(&world, start, goal).expect("there is a way");
    assert_eq!(path.len(), 8);
    assert_eq!(path[7], goal);
    assert_eq!(finder.plan(&world, goal, start).map(|p| p.len()), Some(8));
    // The ends are eight steps apart in a straight line too.
    assert_eq!(distance(start, goal), 8);
}

#[test]
fn larger_buffers_serve_smaller_maps() {
    let world = open_world(12, 10, 0, 0);
    let mut finder = Pathfinder::new(500);
    let start = Position { x: 0, y: 0 };
    let goal = Position { x: 11, y: 9 };
    assert_eq!(finder.plan(&world, start, goal).map(|p| p.len()), Some(20));
    assert_eq!(finder.plan(&world, start, Position { x: 12, y: 0 }), None);
    let (tx, _rx) = mpsc::channel(1);
    let mut collector = Collector::new(0, world.base(), CollectorConfig::default(), 500, tx);
    assert!(collector.plan_path(&world, start, goal));
    assert!(!collector.plan_path(&world, start, Position { x: 0, y: 10 }));
    let mut sim = Simulation::new(world);
    collector.tick(&mut sim);
    assert_eq!(collector.state, CollectorState::Idle);
}

#[test]
fn planned_paths_are_as_short_as_any_walk() {
    let config = WorldConfig { width: 40, height: 40, ..WorldConfig::default() };
    let world = generate(5, config);
    let base = world.base();
    // Steps from the base to every cell, ring by ring.
    let mut steps: Vec<Option<usize>> = vec![None; 1600];
    steps[base.y * 40 + base.x] = Some(0);
    let mut ring = vec![base];
    let mut count = 0;
    while !ring.is_empty() {
        count += 1;
        let mut next = Vec::new();
        for p in &ring {
            for (dx, dy) in [(0, -1), (1, 0), (0, 1), (-1, 0)] {
                let (x, y) = (p.x as i64 + dx, p.y as i64 + dy);
                if (0..40).contains(&x) && (0..40).contains(&y) {
                    let q = Position { x: x as usize, y: y as usize };
                    if world.cell(q) == Some(Cell::Walkable) && steps[q.y * 40 + q.x].is_none() {
                        steps[q.y * 40 + q.x] = Some(count);
                        next.push(q);
                    }
                }
            }
        }
        ring = next;
    }
    let mut finder = Pathfinder::new(world.cell_count());
    for idx in (0..1600).step_by(7) {
        let goal = Position { x: idx % 40, y: idx / 40 };
        assert_eq!(finder.plan(&world, base, goal).map(|p| p.len()), steps[idx], "to {goal:?}");
    }
}

#[test]
fn every_generated_resource_can_be_reached_and_left() {
    let world = generate(3, WorldConfig::default());
    let mut finder = Pathfinder::new(world.cell_count());
    for node in world.resources() {
        assert!(finder.plan(&world, world.base(), node.position).is_some());
        assert!(finder.plan(&world, node.position, world.base()).is_some());
    }
}

#[test]
fn open_set_gives_out_the_cheapest() {
    let mut open = OpenSet::new();
    let costs: Vec<u128> = vec![7, 3, 9, 1, 4, 1, 8, 2];
    for (i, cost) in costs.iter().enumerate() {
        open.push(AStarNode { f_cost: *cost, at: Position { x: i, y: 0 } });
    }
    let mut out = Vec::new();
    while let Some(node) = open.pop() {
        assert_eq!(costs[node.at.x], node.f_cost);
        out.push(node.f_cost);
    }
    assert_eq!(out, vec![1, 1, 2, 3, 4, 7, 8, 9]);
    assert_eq!(open.pop(), None);
}

#[test]
fn undisturbed_collector_moves_one_step_at_most() {
    let world = generate(6, WorldConfig::default());
    let base = world.base();
    let cell_count = world.cell_count();
    let mut sim = Simulation::new(world);
    sim.reveal_all();
    let (tx, mut rx) = mpsc::channel(16);
    let mut collector = Collector::new(5, base, CollectorConfig::default(), cell_count, tx);
    for _ in 0..1_000 {
        let before = collector.position;
        let left = sim.total_remaining();
        collector.tick(&mut sim);
        assert!(distance(before, collector.position) <= 1);
        assert!(left - sim.total_remaining() <= 1);
        while let Ok(msg) = rx.try_recv() {
            assert!(msg.amount <= 16);
            sim.unload(msg.kind, msg.amount);
        }
    }
}
