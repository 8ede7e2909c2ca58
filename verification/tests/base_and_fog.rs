use resource_collection_simulation::simulation::{BaseInventory, RevealMode, Simulation};
use resource_collection_simulation::world::{Position, ResourceKind, World, WorldConfig};

fn world(width: usize, height: usize, energy: usize, crystal: usize) -> World {
    let config = WorldConfig {
        width,
        height,
        base_safety_radius: 0,
        energy_nodes: energy,
        crystal_nodes: crystal,
        ..WorldConfig::default()
    };
    World::generate(17, config, &vec![None; width * height]).expect("valid")
}

fn revealed(sim: &Simulation) -> usize {
    sim.revealed_bitmap().iter().filter(|r| **r).count()
}

#[test]
fn stocks_start_full() {
    let w = world(20, 20, 3, 2);
    let nodes = w.resources().to_vec();
    let sim = Simulation::new(w);
    let placed: u64 = nodes.iter().map(|n| u64::from(n.quantity)).sum();
    assert_eq!(sim.total_remaining(), placed);
    assert_eq!(sim.stocks().len(), 5);
    for (i, node) in nodes.iter().enumerate() {
        assert_eq!(sim.stock_remaining_at(node.position), node.quantity);
        assert_eq!(sim.stock_info_at(node.position), (node.quantity, node.quantity));
        assert_eq!(sim.stock_index_at(node.position), Some(i));
        assert_eq!(sim.stock_table()[node.position.y * 20 + node.position.x], Some(i));
        assert_eq!(sim.stocks()[i].kind, node.kind);
    }
    assert_eq!(sim.inventory(), BaseInventory { energy: 0, crystals: 0 });
    assert_eq!(BaseInventory::default(), BaseInventory { energy: 0, crystals: 0 });
}

#[test]
fn collecting_takes_one_unit_until_none_is_left() {
    let w = world(20, 20, 1, 0);
    let node = w.resources()[0];
    let mut sim = Simulation::new(w);
    for taken in 1..=node.quantity {
        assert_eq!(sim.try_collect(node.position), Some(ResourceKind::Energy));
        assert_eq!(sim.stock_info_at(node.position), (node.quantity - taken, node.quantity));
    }
    assert_eq!(sim.try_collect(node.position), None);
    assert_eq!(sim.total_remaining(), 0);
}

#[test]
fn nothing_to_collect_where_nothing_stands() {
    let w = world(20, 20, 1, 0);
    let base = w.base();
    let total = u64::from(w.resources()[0].quantity);
    let mut sim = Simulation::new(w);
    assert_eq!(sim.try_collect(base), None);
    assert_eq!(sim.stock_remaining_at(base), 0);
    assert_eq!(sim.stock_info_at(base), (0, 0));
    let outside = Position { x: 20, y: 3 };
    assert_eq!(sim.try_collect(outside), None);
    assert_eq!(sim.stock_remaining_at(outside), 0);
    assert_eq!(sim.total_remaining(), total);
}

#[test]
fn unloading_adds_to_the_kind() {
    let mut sim = Simulation::new(world(20, 20, 1, 1));
    sim.unload(ResourceKind::Energy, 16);
    sim.unload(ResourceKind::Crystal, 7);
    sim.unload(ResourceKind::Energy, 4);
    assert_eq!(sim.base_inventory, BaseInventory { energy: 20, crystals: 7 });
}

#[test]
fn surroundings_of_the_base_start_revealed() {
    let w = world(30, 30, 0, 0);
    let base = w.base();
    let sim = Simulation::new(w);
    assert_eq!(revealed(&sim), 49);
    assert!(sim.is_cell_revealed(base));
    assert!(sim.is_cell_revealed(Position { x: base.x + 4, y: base.y }));
    assert!(!sim.is_cell_revealed(Position { x: base.x + 4, y: base.y + 1 }));
    assert!(!sim.is_cell_revealed(Position { x: 0, y: 30 }));
}

#[test]
fn discovered_resource_becomes_a_live_target() {
    let w = world(40, 40, 4, 0);
    let base = w.base();
    let hidden = w
        .resources()
        .iter()
        .map(|n| n.position)
        .find(|p| p.x.abs_diff(base.x) + p.y.abs_diff(base.y) > 8)
        .expect("a far resource");
    let mut sim = Simulation::new(w);
    assert!(!sim.is_resource_discovered(hidden));
    assert!(!sim.live_targets().contains(&hidden));
    let before = revealed(&sim);
    sim.mark_resource_discovered(hidden);
    assert!(sim.is_resource_discovered(hidden));
    assert!(sim.live_targets().contains(&hidden));
    assert!(sim.is_cell_revealed(hidden));
    assert!(revealed(&sim) > before);
    while sim.try_collect(hidden).is_some() {}
    assert!(!sim.live_targets().contains(&hidden));
    assert!(sim.is_resource_discovered(hidden));
}

#[test]
fn resource_reports_reveal_a_cross() {
    let w = world(40, 40, 0, 0);
    let mut sim = Simulation::new(w);
    let before = revealed(&sim);
    let p = Position { x: 3, y: 30 };
    sim.mark_resource_discovered(p);
    assert_eq!(revealed(&sim), before + 5);
    for q in [
        p,
        Position { x: 2, y: 30 },
        Position { x: 4, y: 30 },
        Position { x: 3, y: 29 },
        Position { x: 3, y: 31 },
    ] {
        assert!(sim.is_cell_revealed(q));
    }
    assert!(!sim.is_cell_revealed(Position { x: 4, y: 31 }));
    assert!(!sim.is_resource_discovered(p));
}

#[test]
fn resource_reports_at_the_edge_stay_in_their_row() {
    let config = WorldConfig {
        width: 8,
        height: 8,
        base_safety_radius: 16,
        energy_nodes: 0,
        crystal_nodes: 0,
        ..WorldConfig::default()
    };
    let mut sim = Simulation::new(World::generate(1, config, &vec![None; 64]).expect("valid"));
    assert!(!sim.is_cell_revealed(Position { x: 7, y: 0 }));
    assert!(!sim.is_cell_revealed(Position { x: 0, y: 1 }));
    sim.mark_resource_discovered(Position { x: 7, y: 0 });
    for q in [Position { x: 7, y: 0 }, Position { x: 6, y: 0 }, Position { x: 7, y: 1 }] {
        assert!(sim.is_cell_revealed(q));
    }
    assert!(!sim.is_cell_revealed(Position { x: 0, y: 1 }));
    assert!(!sim.is_cell_revealed(Position { x: 0, y: 0 }));
}

#[test]
fn positions_off_the_map_reveal_nothing() {
    let mut sim = Simulation::new(world(40, 40, 0, 0));
    let before = revealed(&sim);
    sim.reveal_cell(Position { x: 40, y: 3 });
    sim.mark_obstacle_discovered(Position { x: 41, y: 3 });
    assert_eq!(revealed(&sim), before);
    sim.reveal_cell(Position { x: 0, y: 4 });
    assert_eq!(revealed(&sim), before + 1);
    assert!(!sim.is_cell_revealed(Position { x: 40, y: 3 }));
}

#[test]
fn obstacle_reports_and_steps_reveal_one_cell() {
    let mut sim = Simulation::new(world(40, 40, 0, 0));
    let before = revealed(&sim);
    sim.mark_obstacle_discovered(Position { x: 1, y: 1 });
    assert_eq!(revealed(&sim), before + 1);
    sim.reveal_cell(Position { x: 1, y: 1 });
    assert_eq!(revealed(&sim), before + 1);
    sim.reveal_cell(Position { x: 2, y: 1 });
    assert_eq!(revealed(&sim), before + 2);
    sim.reveal_cell(Position { x: 0, y: 40 });
    assert_eq!(revealed(&sim), before + 2);
}

#[test]
fn reveal_modes_show_as_much_as_they_say() {
    let w = world(40, 40, 3, 3);
    let start = Simulation::new(w.clone());
    let known = start.discovered_bitmap().iter().filter(|d| **d).count();

    let mut normal = Simulation::new(w.clone());
    normal.apply_reveal_mode(RevealMode::Normal);
    assert_eq!(normal.revealed_bitmap(), start.revealed_bitmap());

    let mut nofog = Simulation::new(w.clone());
    nofog.apply_reveal_mode(RevealMode::NoFog);
    assert_eq!(revealed(&nofog), 1600);
    assert_eq!(nofog.discovered_bitmap().iter().filter(|d| **d).count(), known);

    let mut full = Simulation::new(w);
    full.apply_reveal_mode(RevealMode::Full);
    assert_eq!(revealed(&full), 1600);
    assert_eq!(full.discovered_bitmap().iter().filter(|d| **d).count(), 6);
    assert_eq!(full.live_targets().len(), 6);
}

#[test]
fn world_of_a_simulation_is_the_world_it_was_made_of() {
    let w = world(20, 20, 2, 2);
    let sim = Simulation::new(w.clone());
    assert_eq!(*sim.world(), w);
}
