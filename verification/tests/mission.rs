//! The whole pipeline in lockstep: scouts, collectors, base, messages.

use noise::{NoiseFn, Perlin};
use resource_collection_simulation::app::{spawns_robots, App, AppSnapshot, Input, Phase, SimMetrics};
use resource_collection_simulation::collector::{Collector, CollectorConfig, CollectorMessage};
use resource_collection_simulation::map::{Color, MapPreset, VisualTheme};
use resource_collection_simulation::occupancy::{resolve, OccupancyGrid};
use resource_collection_simulation::scout::{Bearings, Scout, ScoutConfig, ScoutMessage};
use resource_collection_simulation::simulation::{RevealMode, Simulation};
use resource_collection_simulation::ui::{
    cell_char, color_rgb, hint_row, inventory_row, is_padded, map_row, needs_padding, percent, progress, robot_row,
    status_colors, status_title, Look, Segment, Shade, Text,
};
use resource_collection_simulation::world::{Cell, Position, World, WorldConfig};
use std::f64::consts::{PI, TAU};
use tokio::sync::mpsc;

fn micros(value: i64) -> f64 {
    value as f64 / 1_000_000.0
}

fn fbm(perlin: &Perlin, x: f64, y: f64, base_frequency: f64, octaves: u32) -> f64 {
    let mut value = 0.0;
    let mut amplitude = 1.0;
    let mut frequency = base_frequency;
    let mut max_value = 0.0;
    for _ in 0..octaves {
        value += amplitude * perlin.get([x * frequency, y * frequency]);
        max_value += amplitude;
        amplitude *= 0.5;
        frequency *= 2.0;
    }
    value / max_value
}

fn terrain(seed: u64, config: &WorldConfig) -> Vec<Option<u8>> {
    let perlin = Perlin::new(seed as u32);
    let mut cells = Vec::with_capacity(config.width * config.height);
    for y in 0..config.height {
        for x in 0..config.width {
            let sample = fbm(&perlin, x as f64, y as f64, micros(config.obstacle_frequency), 3);
            if sample > micros(config.obstacle_threshold) {
                let biome = perlin.get([x as f64 * 0.015, y as f64 * 0.015]);
                cells.push(Some(((biome + 1.0) * 127.5).clamp(0.0, 255.0) as u8));
            } else {
                cells.push(None);
            }
        }
    }
    cells
}

fn angle_diff(a: f64, b: f64) -> f64 {
    let d = (a - b).abs() % TAU;
    if d > PI {
        TAU - d
    } else {
        d
    }
}

fn angle_from(home: Position, goal: Position) -> f64 {
    let dx = goal.x as f64 - home.x as f64;
    let dy = goal.y as f64 - home.y as f64;
    dy.atan2(dx).rem_euclid(TAU)
}

fn bearings(world: &World, home: Position, preferred: f64) -> Bearings {
    let mut penalty = Vec::with_capacity(world.cell_count());
    let mut inside = Vec::with_capacity(world.cell_count());
    for y in 0..world.height() {
        for x in 0..world.width() {
            let diff = angle_diff(angle_from(home, Position { x, y }), preferred);
            penalty.push(((diff / PI) * 10.0) as u8);
            inside.push(diff <= TAU / 8.0);
        }
    }
    Bearings { penalty, inside }
}

fn new_scout(id: u16, world: &World, config: ScoutConfig, seed: u64, tx: mpsc::Sender<ScoutMessage>) -> Scout {
    let facing = bearings(world, world.base(), (id as f64 / 4.0) * TAU);
    Scout::new(id, world.base(), world, config, seed, facing, tx)
}

fn tick_scout(scout: &mut Scout, world: &World) {
    if let Some(goal) = scout.tick(world) {
        let facing = bearings(world, scout.home(), angle_from(scout.home(), goal));
        scout.turn(world, facing);
    }
}

struct Run {
    app: App,
    sim: Simulation,
    occupancy: OccupancyGrid,
    scouts: Vec<Scout>,
    collectors: Vec<Collector>,
    reports: mpsc::Receiver<ScoutMessage>,
    unloads: mpsc::Receiver<CollectorMessage>,
}

fn make_run(seed: u64, preset: MapPreset, mode: RevealMode) -> Run {
    let cells = terrain(seed, &preset.config());
    let (app, sim) = App::new(seed, preset, VisualTheme::standard(), mode, &cells).expect("app should initialize");
    let world = app.world().clone();
    let (scout_tx, reports) = mpsc::channel(128);
    let (collector_tx, unloads) = mpsc::channel(128);
    let mut scouts = Vec::new();
    let mut collectors = Vec::new();
    if spawns_robots(mode) {
        for id in 0..4 {
            scouts.push(new_scout(id, &world, ScoutConfig::default(), 1000 + u64::from(id), scout_tx.clone()));
        }
        for id in 4..7 {
            collectors.push(Collector::new(
                id,
                world.base(),
                CollectorConfig::default(),
                world.cell_count(),
                collector_tx.clone(),
            ));
        }
    }
    let occupancy = OccupancyGrid::new(&world);
    Run { app, sim, occupancy, scouts, collectors, reports, unloads }
}

fn make_app(seed: u64, preset: MapPreset) -> Run {
    make_run(seed, preset, RevealMode::Normal)
}

fn step(run: &mut Run) {
    run.app.reserve_positions(&mut run.occupancy);
    let mut moves = Vec::new();
    for scout in &mut run.scouts {
        let old = scout.position;
        run.occupancy.release(old);
        tick_scout(scout, &run.sim.world);
        resolve(&mut scout.position, old, &mut run.occupancy, &run.sim.world);
        moves.push((scout.id, scout.position));
    }
    for collector in &mut run.collectors {
        let old = collector.position;
        run.occupancy.release(old);
        collector.tick(&mut run.sim);
        resolve(&mut collector.position, old, &mut run.occupancy, &run.sim.world);
        moves.push((collector.id, collector.position));
    }
    let mut reports = Vec::new();
    while let Ok(msg) = run.reports.try_recv() {
        reports.push(msg);
    }
    let mut unloads = Vec::new();
    while let Ok(msg) = run.unloads.try_recv() {
        unloads.push(msg);
    }
    run.app.step(&mut run.sim, &moves, &reports, &unloads);
}

fn run_ticks(run: &mut Run, count: u64) -> SimMetrics {
    for _ in 0..count {
        step(run);
    }
    run.app.metrics()
}

fn assert_robots_on_walkable(run: &Run) {
    let world = run.app.world();
    for pos in run.app.scout_positions().iter().chain(run.app.collector_positions()) {
        let cell = world
            .cell(*pos)
            .unwrap_or_else(|| panic!("robot out of bounds at {pos:?}"));
        assert_eq!(cell, Cell::Walkable, "robot on obstacle at {pos:?}");
    }
}

fn assert_inventory_bounds(m: &SimMetrics) {
    assert!(
        m.collected() + m.remaining <= m.initial_total,
        "collected({}) + remaining({}) > initial({})",
        m.collected(),
        m.remaining,
        m.initial_total,
    );
}

#[test]
fn app_simulation_runs_without_panics() {
    let mut run = make_app(42, MapPreset::Default);
    for _ in 0..200 {
        step(&mut run);
    }
    assert!(run.app.metrics().tick > 0);
}

#[test]
fn app_creates_expected_number_of_robots() {
    let run = make_app(99, MapPreset::Default);
    assert_eq!(run.app.scout_positions().len(), 4);
    assert_eq!(run.app.collector_positions().len(), 3);
}

#[test]
fn integration_app_boots_with_robots_and_resources() {
    let run = make_app(42, MapPreset::Compact);
    let m = run.app.metrics();

    assert_eq!(run.app.scout_positions().len(), 4);
    assert_eq!(run.app.collector_positions().len(), 3);
    assert!(m.initial_total > 0);
    assert_eq!(m.remaining, m.initial_total);
    assert_eq!(m.collected(), 0);
}

#[test]
fn integration_same_seed_produces_identical_startup() {
    let run_a = make_app(2026, MapPreset::Plains);
    let run_b = make_app(2026, MapPreset::Plains);

    assert_eq!(run_a.app.metrics(), run_b.app.metrics());
    assert_eq!(run_a.app.world(), run_b.app.world());
}

#[test]
fn integration_tick_pipeline_runs_without_deadlock() {
    let mut run = make_app(42, MapPreset::Compact);
    let m = run_ticks(&mut run, 500);

    assert_eq!(m.tick, 500);
    assert_robots_on_walkable(&run);
}

#[test]
fn integration_all_map_presets_run_successfully() {
    let presets = [
        MapPreset::Default,
        MapPreset::Cavern,
        MapPreset::Forest,
        MapPreset::Archipelago,
        MapPreset::Plains,
        MapPreset::Compact,
    ];

    for (i, preset) in presets.into_iter().enumerate() {
        let mut run = make_app(100 + i as u64, preset);
        let m = run_ticks(&mut run, 200);
        assert_eq!(m.tick, 200, "preset {preset:?} failed");
        assert_robots_on_walkable(&run);
    }
}

#[test]
fn integration_scouts_expand_fog_of_war() {
    let mut run = make_app(7, MapPreset::Compact);
    let start = run.app.metrics().revealed_cells;
    let m = run_ticks(&mut run, 300);

    assert!(
        m.revealed_cells > start,
        "fog should shrink (start={start}, now={})",
        m.revealed_cells
    );
}

#[test]
fn integration_scouts_discover_resources() {
    let mut run = make_app(11, MapPreset::Compact);
    let start = run.app.metrics().discovered_resources;
    let m = run_ticks(&mut run, 400);

    assert!(
        m.discovered_resources > start,
        "scouts should discover resources (start={start}, now={})",
        m.discovered_resources
    );
}

#[test]
fn integration_collectors_deliver_resources_to_base() {
    let mut run = make_app(21, MapPreset::Compact);
    let m = run_ticks(&mut run, 2_000);

    assert!(m.collected() > 0, "collectors should unload at base");
    assert!(m.remaining < m.initial_total, "map stock should decrease");
    assert_inventory_bounds(&m);
    assert_robots_on_walkable(&run);
}

#[test]
fn integration_collection_never_decreases() {
    let mut run = make_app(33, MapPreset::Compact);
    let mut last = 0_u64;

    for _ in 0..20 {
        let m = run_ticks(&mut run, 100);
        assert!(m.collected() >= last, "collected must be monotonic");
        last = m.collected();
    }
}

#[test]
fn integration_full_mission_completes() {
    let mut run = make_app(99, MapPreset::Compact);
    let initial = run.app.metrics().initial_total;
    let max_ticks = 40_000_u64;

    let mut m = run.app.metrics();
    for _ in 0..max_ticks {
        step(&mut run);
        m = run.app.metrics();
        assert_inventory_bounds(&m);
        // Map empty AND all in-flight cargo delivered to base.
        if m.is_complete() && m.collected() == initial {
            break;
        }
    }

    assert!(
        m.is_complete(),
        "map resources should be depleted within {max_ticks} ticks (remaining={})",
        m.remaining,
    );
    assert_eq!(
        m.collected(),
        initial,
        "all units picked up must eventually reach the base"
    );
    assert_robots_on_walkable(&run);
}

#[test]
fn full_reveal_runs_no_robots() {
    assert!(!spawns_robots(RevealMode::Full));
    assert!(spawns_robots(RevealMode::NoFog));
    let mut run = make_run(5, MapPreset::Compact, RevealMode::Full);
    let m = run_ticks(&mut run, 3);
    assert_eq!(m.revealed_cells, 32 * 20);
    assert_eq!(m.discovered_resources, 8);
    assert_eq!(m.remaining, m.initial_total);
}

#[test]
fn unknown_robots_are_ignored() {
    let mut run = make_app(5, MapPreset::Compact);
    let before = run.app.collector_positions().to_vec();
    let there = Position { x: 1, y: 1 };
    run.app.step(&mut run.sim, &vec![(9, there), (2, there)], &Vec::new(), &Vec::new());
    assert_eq!(run.app.collector_positions(), &before[..]);
    assert_eq!(run.app.scout_positions()[2], there);
    assert!(run.sim.is_cell_revealed(there));
}

#[test]
fn positions_are_reserved_before_the_robots_move() {
    let mut run = make_app(5, MapPreset::Compact);
    let there = Position { x: 1, y: 1 };
    run.app.step(&mut run.sim, &vec![(0, there)], &Vec::new(), &Vec::new());
    let elsewhere = Position { x: 2, y: 2 };
    assert!(run.occupancy.try_reserve(elsewhere));
    run.app.reserve_positions(&mut run.occupancy);
    assert!(run.occupancy.is_occupied(there));
    assert!(!run.occupancy.is_occupied(elsewhere));
    assert!(!run.occupancy.is_occupied(run.app.world().base()));
}

#[test]
fn robots_cover_the_base_and_the_base_shows_once_they_leave() {
    let mut run = make_app(5, MapPreset::Compact);
    let base = run.app.world().base();
    run.app.step(&mut run.sim, &Vec::new(), &Vec::new(), &Vec::new());
    let look = cell_char(&run.app.snapshot(), base);
    assert_eq!(look, Look { glyph: "o", shade: Shade::Plain(Color::Magenta) });
    let away = Position { x: base.x + 1, y: base.y };
    let moves: Vec<(u16, Position)> = (0..7).map(|id| (id, away)).collect();
    run.app.step(&mut run.sim, &moves, &Vec::new(), &Vec::new());
    let look = cell_char(&run.app.snapshot(), base);
    assert_eq!(look, Look { glyph: "#", shade: Shade::BasePulse(Color::LightGreen) });
    let beside = cell_char(&run.app.snapshot(), away);
    assert_eq!(beside, Look { glyph: "o", shade: Shade::Plain(Color::Magenta) });
}

#[test]
fn scouts_are_drawn_as_scouts() {
    let mut run = make_app(5, MapPreset::Compact);
    let there = Position { x: 3, y: 3 };
    run.app.step(&mut run.sim, &vec![(1, there)], &Vec::new(), &Vec::new());
    assert_eq!(
        cell_char(&run.app.snapshot(), there),
        Look { glyph: "x", shade: Shade::Plain(Color::Red) }
    );
}

#[test]
fn fog_is_drawn_with_an_edge() {
    let mut run = make_app(5, MapPreset::Compact);
    run.app.step(&mut run.sim, &Vec::new(), &Vec::new(), &Vec::new());
    let base = run.app.world().base();
    let shot = run.app.snapshot();
    let edge = Position { x: base.x + 5, y: base.y };
    assert_eq!(cell_char(&shot, edge), Look { glyph: ".", shade: Shade::FogEdge(Color::Black) });
    let deep = Position { x: 0, y: 0 };
    assert_eq!(cell_char(&shot, deep), Look { glyph: ".", shade: Shade::Plain(Color::Black) });
    let row = map_row(&shot, base.y);
    assert_eq!(row.len(), 32);
    assert_eq!(row[base.x + 5], cell_char(&shot, edge));
}

#[test]
fn discovered_resources_glow_until_they_are_empty() {
    let mut run = make_run(5, MapPreset::Compact, RevealMode::Full);
    run_ticks(&mut run, 1);
    let node = run.app.world().resources()[0];
    assert_eq!(
        cell_char(&run.app.snapshot(), node.position),
        Look {
            glyph: "E",
            shade: Shade::ResourcePulse { color: Color::Green, remaining: node.quantity, initial: node.quantity }
        }
    );
    run.sim.try_collect(node.position);
    run_ticks(&mut run, 1);
    assert_eq!(
        cell_char(&run.app.snapshot(), node.position).shade,
        Shade::ResourcePulse { color: Color::Green, remaining: node.quantity - 1, initial: node.quantity }
    );
    while run.sim.try_collect(node.position).is_some() {}
    run_ticks(&mut run, 1);
    assert_eq!(
        cell_char(&run.app.snapshot(), node.position),
        Look { glyph: " ", shade: Shade::Plain(Color::DarkGray) }
    );
}

#[test]
fn hidden_resources_look_like_ground_without_fog() {
    let mut run = make_run(5, MapPreset::Compact, RevealMode::NoFog);
    run.app.step(&mut run.sim, &Vec::new(), &Vec::new(), &Vec::new());
    let world = run.app.world().clone();
    let base = world.base();
    let hidden = world
        .resources()
        .iter()
        .find(|n| n.position.x.abs_diff(base.x) + n.position.y.abs_diff(base.y) > 8)
        .expect("a far resource");
    assert_eq!(
        cell_char(&run.app.snapshot(), hidden.position),
        Look { glyph: " ", shade: Shade::Plain(Color::DarkGray) }
    );
    if let Some(idx) = (0..640).find(|i| world.cell(Position { x: i % 32, y: i / 32 }) == Some(Cell::Obstacle)) {
        assert_eq!(
            cell_char(&run.app.snapshot(), Position { x: idx % 32, y: idx / 32 }),
            Look { glyph: "O", shade: Shade::Plain(Color::LightCyan) }
        );
    }
}

fn words(text: &'static str, color: Color, bold: bool) -> Segment {
    Segment { text: Text::Words(text), color: Some(color), bold }
}

#[test]
fn status_of_a_running_mission() {
    let mut run = make_app(5, MapPreset::Compact);
    let m = run_ticks(&mut run, 2);
    let shot = run.app.snapshot();
    assert_eq!(status_title(&shot), words(" Resource Collection ", Color::Cyan, false));
    assert_eq!(status_colors(&shot), (Color::DarkGray, Color::Green));
    let robots = robot_row(&shot);
    assert_eq!(robots[0], words("Tick ", Color::DarkGray, false));
    assert_eq!(robots[1], Segment { text: Text::Column(2), color: Some(Color::White), bold: true });
    assert_eq!(robots[3], Segment { text: Text::Count(4, "Scouts"), color: Some(Color::Red), bold: false });
    assert_eq!(robots[5], Segment { text: Text::Count(3, "Collectors"), color: Some(Color::Magenta), bold: false });
    let stock = inventory_row(&shot);
    assert_eq!(stock.len(), 10);
    assert_eq!(stock[0], Segment { text: Text::Icon("E"), color: Some(Color::Green), bold: true });
    assert_eq!(stock[2], Segment { text: Text::Column(0), color: Some(Color::Green), bold: false });
    assert_eq!(stock[9], Segment { text: Text::Number(m.remaining), color: Some(Color::Yellow), bold: false });
    assert_eq!(hint_row(&shot)[3], words("any key", Color::Yellow, true));
    assert_eq!(progress(&shot), (m.initial_total - m.remaining, m.initial_total));
}

#[test]
fn status_of_a_complete_mission() {
    let mut run = make_run(5, MapPreset::Compact, RevealMode::Full);
    for node in run.app.world().resources().to_vec() {
        while run.sim.try_collect(node.position).is_some() {}
    }
    let m = run_ticks(&mut run, 1);
    assert!(m.is_complete());
    let shot = run.app.snapshot();
    assert_eq!(status_title(&shot), words(" ✓ Mission complete ", Color::LightGreen, true));
    assert_eq!(status_colors(&shot), (Color::LightGreen, Color::LightGreen));
    assert_eq!(hint_row(&shot)[1], words("any key", Color::LightGreen, true));
    assert_eq!(progress(&shot), (m.initial_total, m.initial_total));
    assert_eq!(
        inventory_row(&shot)[9],
        Segment { text: Text::Number(0), color: Some(Color::LightGreen), bold: false }
    );
}

#[test]
fn percentage_is_rounded_to_the_nearest() {
    let run = make_app(5, MapPreset::Compact);
    let shot = run.app.snapshot();
    assert_eq!(percent(&shot), 0);
    for (remaining, initial, expected) in [
        (200, 200, 0),
        (199, 200, 1),
        (198, 200, 1),
        (2, 3, 33),
        (1, 3, 67),
        (101, 200, 50),
        (99, 200, 51),
        (1, 200, 100),
        (0, 200, 100),
        (0, 0, 100),
        (1, u64::MAX, 100),
        (u64::MAX, u64::MAX, 0),
    ] {
        let shot = AppSnapshot { cached_remaining: remaining, cached_initial_total: initial, ..shot };
        assert_eq!(percent(&shot), expected, "{remaining} of {initial} left");
    }
}

#[test]
fn as_many_resources_are_placed_as_configured() {
    let run = make_app(42, MapPreset::Compact);
    let config = MapPreset::Compact.config();
    let placed = run.app.world().resources().len();
    assert_eq!(placed, config.energy_nodes + config.crystal_nodes);
    let m = run.app.metrics();
    assert!(50 * placed as u64 <= m.initial_total && m.initial_total <= 200 * placed as u64);
}

#[test]
fn narrow_glyphs_are_padded_in_wide_cells() {
    assert!(needs_padding(2, 1));
    assert!(!needs_padding(2, 2));
    assert!(!needs_padding(1, 1));
    assert!(is_padded(2, "·"));
    assert!(is_padded(2, "░"));
    assert!(!is_padded(2, "🏠"));
    assert!(!is_padded(2, "⚡"));
    assert!(!is_padded(1, "x"));
}

#[test]
fn colors_have_components() {
    assert_eq!(color_rgb(Color::Rgb(1, 2, 3)), (1, 2, 3));
    assert_eq!(color_rgb(Color::LightGreen), (144, 238, 144));
    assert_eq!(color_rgb(Color::LightMagenta), (255, 224, 255));
    assert_eq!(color_rgb(Color::DarkGray), (64, 64, 64));
    assert_eq!(color_rgb(Color::Indexed(9)), (128, 128, 128));
    assert_eq!(color_rgb(Color::Reset), (128, 128, 128));
}

#[test]
fn any_key_ends_the_program() {
    assert_eq!(Phase::Running.after(false, Input::Nothing), Phase::Running);
    assert_eq!(Phase::Running.after(false, Input::Other), Phase::Running);
    assert_eq!(Phase::Running.after(false, Input::Key), Phase::Over);
    assert_eq!(Phase::Running.after(true, Input::Key), Phase::Complete);
    assert_eq!(Phase::Complete.after(true, Input::Nothing), Phase::Complete);
    assert_eq!(Phase::Complete.after(true, Input::Key), Phase::Over);
}

#[test]
fn robots_keep_apart_outside_the_base() {
    let mut run = make_app(13, MapPreset::Compact);
    let base = run.app.world().base();
    for _ in 0..800 {
        step(&mut run);
        let mut places: Vec<Position> = run
            .app
            .scout_positions()
            .iter()
            .chain(run.app.collector_positions())
            .copied()
            .filter(|p| *p != base)
            .collect();
        let robots = places.len();
        places.sort_by_key(|p| (p.y, p.x));
        places.dedup();
        assert_eq!(places.len(), robots, "two robots share a cell");
    }
}

#[test]
fn metrics_only_move_on() {
    let mut run = make_app(12, MapPreset::Compact);
    let mut last = run.app.metrics();
    for _ in 0..300 {
        let m = run_ticks(&mut run, 1);
        assert_eq!(m.tick, last.tick + 1);
        assert_eq!(m.initial_total, last.initial_total);
        assert!(m.energy >= last.energy && m.crystals >= last.crystals);
        assert!(m.remaining <= last.remaining);
        assert!(m.revealed_cells >= last.revealed_cells);
        assert!(m.discovered_resources >= last.discovered_resources);
        assert_inventory_bounds(&m);
        assert_robots_on_walkable(&run);
        assert_eq!(run.app.scout_positions().len(), 4);
        assert_eq!(run.app.collector_positions().len(), 3);
        last = m;
    }
}

#[test]
fn fog_never_comes_back() {
    let mut run = make_app(13, MapPreset::Compact);
    let mut seen = run.sim.revealed_bitmap().to_vec();
    let mut known = run.sim.discovered_bitmap().to_vec();
    for _ in 0..300 {
        step(&mut run);
        for (i, was) in seen.iter().enumerate() {
            assert!(!was || run.sim.revealed_bitmap()[i]);
        }
        for (i, was) in known.iter().enumerate() {
            assert!(!was || run.sim.discovered_bitmap()[i]);
        }
        seen = run.sim.revealed_bitmap().to_vec();
        known = run.sim.discovered_bitmap().to_vec();
    }
}

#[test]
fn fog_shows_nothing_of_the_terrain() {
    let preset = MapPreset::Compact;
    let config = preset.config();
    let open = vec![None; config.width * config.height];
    let mut blocked = open.clone();
    let far = Position { x: 1, y: 1 };
    blocked[config.width + 1] = Some(9);
    let mut looks = Vec::new();
    for cells in [open, blocked] {
        let (mut app, mut sim) =
            App::new(4, preset, VisualTheme::standard(), RevealMode::Normal, &cells).expect("valid");
        app.step(&mut sim, &Vec::new(), &Vec::new(), &Vec::new());
        looks.push(cell_char(&app.snapshot(), far));
        sim.reveal_cell(far);
        app.step(&mut sim, &Vec::new(), &Vec::new(), &Vec::new());
        looks.push(cell_char(&app.snapshot(), far));
    }
    assert_eq!(looks[0], looks[2]);
    assert_ne!(looks[1], looks[3]);
}

#[test]
fn robots_stay_where_the_base_can_be_reached() {
    let mut run = make_app(103, MapPreset::Archipelago);
    let world = run.app.world().clone();
    let mut finder = resource_collection_simulation::search::Pathfinder::new(world.cell_count());
    run_ticks(&mut run, 150);
    for pos in run.app.scout_positions().iter().chain(run.app.collector_positions()) {
        assert!(finder.plan(&world, *pos, world.base()).is_some());
    }
}
