use resource_collection_simulation::cli::{mode_from_word, parse_args};
use resource_collection_simulation::map::{Color, MapPreset, VisualTheme};
use resource_collection_simulation::simulation::RevealMode;
use resource_collection_simulation::world::{validate_config, ResourceKind, WorldConfig};

fn args(words: &[&str]) -> Vec<String> {
    words.iter().map(|w| w.to_string()).collect()
}

#[test]
fn presets_configure_the_terrain() {
    assert_eq!(MapPreset::Default.config(), WorldConfig::default());
    let cavern = MapPreset::Cavern.config();
    assert_eq!((cavern.obstacle_threshold, cavern.obstacle_frequency), (-80_000, 40_000));
    let forest = MapPreset::Forest.config();
    assert_eq!((forest.obstacle_threshold, forest.obstacle_frequency), (100_000, 120_000));
    let archipelago = MapPreset::Archipelago.config();
    assert_eq!((archipelago.obstacle_threshold, archipelago.obstacle_frequency), (-120_000, 30_000));
    let plains = MapPreset::Plains.config();
    assert_eq!((plains.obstacle_threshold, plains.obstacle_frequency), (350_000, 50_000));
    assert_eq!((plains.width, plains.height), (96, 40));
    let compact = MapPreset::Compact.config();
    assert_eq!((compact.width, compact.height), (32, 20));
    assert_eq!((compact.energy_nodes, compact.crystal_nodes, compact.base_safety_radius), (4, 4, 3));
}

#[test]
fn every_preset_is_valid() {
    for preset in [
        MapPreset::Default,
        MapPreset::Cavern,
        MapPreset::Forest,
        MapPreset::Archipelago,
        MapPreset::Plains,
        MapPreset::Compact,
    ] {
        assert_eq!(validate_config(preset.config()), Ok(()));
    }
}

#[test]
fn preset_names_and_short_forms() {
    for (word, preset) in [
        ("default", MapPreset::Default),
        ("d", MapPreset::Default),
        ("cavern", MapPreset::Cavern),
        ("cave", MapPreset::Cavern),
        ("c", MapPreset::Cavern),
        ("forest", MapPreset::Forest),
        ("f", MapPreset::Forest),
        ("archipelago", MapPreset::Archipelago),
        ("archi", MapPreset::Archipelago),
        ("a", MapPreset::Archipelago),
        ("plains", MapPreset::Plains),
        ("open", MapPreset::Plains),
        ("p", MapPreset::Plains),
        ("compact", MapPreset::Compact),
        ("small", MapPreset::Compact),
        ("CaVeRn", MapPreset::Cavern),
    ] {
        assert_eq!(word.parse::<MapPreset>(), Ok(preset), "{word}");
    }
}

#[test]
fn unknown_preset_is_explained() {
    assert_eq!(
        "Moon".parse::<MapPreset>().err(),
        Some("unknown preset 'moon'. try: default, cavern, forest, archipelago, plains, compact".to_string())
    );
    assert_eq!(
        MapPreset::from_word(&"Cavern".to_string()).err(),
        Some("unknown preset 'Cavern'. try: default, cavern, forest, archipelago, plains, compact".to_string())
    );
}

#[test]
fn theme_names_and_short_forms() {
    for (word, name) in [
        ("default", "default"),
        ("d", "default"),
        ("RETRO", "retro"),
        ("r", "retro"),
        ("symbols", "symbols"),
        ("sym", "symbols"),
        ("s", "symbols"),
        ("Emoji", "emoji"),
        ("e", "emoji"),
    ] {
        assert_eq!(word.parse::<VisualTheme>().map(|t| t.name), Ok(name), "{word}");
    }
    assert_eq!(
        "neon".parse::<VisualTheme>().err(),
        Some("unknown visual theme 'neon'. try: default, retro, symbols, emoji".to_string())
    );
    assert!(VisualTheme::from_word(&"Emoji".to_string()).is_err());
}

#[test]
fn default_theme_has_the_project_colors() {
    let t = VisualTheme::standard();
    assert_eq!((t.obstacle_char(77), t.obstacle_color_for(77)), ("O", Color::LightCyan));
    assert_eq!(t.resource_display(ResourceKind::Energy), ("E", Color::Green));
    assert_eq!(t.resource_display(ResourceKind::Crystal), ("C", Color::LightMagenta));
    assert_eq!((t.base_char, t.base_color), ("#", Color::LightGreen));
    assert_eq!((t.scout_char, t.scout_color), ("x", Color::Red));
    assert_eq!((t.collector_char, t.collector_color), ("o", Color::Magenta));
    assert_eq!((t.ground_char, t.fog_char, t.cell_width), (" ", ".", 1));
}

#[test]
fn themes_look_as_listed() {
    let retro = VisualTheme::retro();
    assert_eq!(retro.obstacle_palette, vec!["#", "%", "&", "@"]);
    assert_eq!((retro.energy_char, retro.crystal_char, retro.base_char), ("E", "C", "H"));
    assert_eq!((retro.scout_char, retro.collector_char), ("S", "R"));
    let symbols = VisualTheme::symbols();
    assert_eq!(symbols.obstacle_palette, vec!["◆", "▲", "■", "●"]);
    assert_eq!((symbols.energy_char, symbols.crystal_char, symbols.base_char), ("⚡", "♦", "⌂"));
    assert_eq!((symbols.scout_char, symbols.collector_char), ("●", "○"));
    assert_eq!(symbols.fog_color, Color::Rgb(30, 30, 40));
    let emoji = VisualTheme::emoji();
    assert_eq!((emoji.energy_char, emoji.crystal_char, emoji.base_char), ("⚡", "💎", "🏠"));
    assert_eq!((emoji.scout_char, emoji.collector_char, emoji.cell_width), ("🔍", "🤖", 2));
}

#[test]
fn palettes_spread_over_the_biomes() {
    let retro = VisualTheme::retro();
    let glyphs: Vec<&str> = [0, 63, 64, 127, 128, 191, 192, 255].iter().map(|b| retro.obstacle_char(*b)).collect();
    assert_eq!(glyphs, vec!["#", "#", "%", "%", "&", "&", "@", "@"]);
    assert_eq!(retro.obstacle_color_for(0), Color::White);
    assert_eq!(retro.obstacle_color_for(64), Color::Yellow);
    assert_eq!(retro.obstacle_color_for(255), Color::LightCyan);
    let bare = VisualTheme { obstacle_palette: Vec::new(), ..VisualTheme::standard() };
    assert_eq!(bare.obstacle_char(200), "O");
}

#[test]
fn low_biomes_are_wet_and_high_ones_rocky() {
    let emoji = VisualTheme::emoji();
    assert_eq!((emoji.obstacle_char(0), emoji.obstacle_color_for(0)), ("💧", Color::LightBlue));
    assert_eq!((emoji.obstacle_char(128), emoji.obstacle_color_for(128)), ("🌳", Color::Green));
    assert_eq!((emoji.obstacle_char(255), emoji.obstacle_color_for(255)), ("🪨", Color::Gray));
}

#[test]
fn no_arguments_leave_the_defaults() {
    let o = parse_args(&args(&[]));
    assert_eq!((o.preset, o.theme.name, o.seed, o.reveal_mode), (MapPreset::Default, "default", None, RevealMode::Normal));
}

#[test]
fn arguments_in_every_place() {
    let o = parse_args(&args(&["cavern", "retro"]));
    assert_eq!((o.preset, o.theme.name, o.seed), (MapPreset::Cavern, "retro", None));
    let o = parse_args(&args(&["forest", "emoji", "42"]));
    assert_eq!((o.preset, o.theme.name, o.seed, o.reveal_mode), (MapPreset::Forest, "emoji", Some(42), RevealMode::Normal));
    let o = parse_args(&args(&["archi", "symbols", "reveal"]));
    assert_eq!((o.preset, o.theme.name, o.seed, o.reveal_mode), (MapPreset::Archipelago, "symbols", None, RevealMode::Full));
    let o = parse_args(&args(&["plains", "default", "nofog"]));
    assert_eq!((o.preset, o.seed, o.reveal_mode), (MapPreset::Plains, None, RevealMode::NoFog));
    let o = parse_args(&args(&["default", "default", "99", "reveal"]));
    assert_eq!((o.seed, o.reveal_mode), (Some(99), RevealMode::Full));
}

#[test]
fn senseless_arguments_leave_the_defaults() {
    let o = parse_args(&args(&["moon", "neon", "maybe", "perhaps"]));
    assert_eq!((o.preset, o.theme.name, o.seed, o.reveal_mode), (MapPreset::Default, "default", None, RevealMode::Normal));
    let o = parse_args(&args(&["d", "d", "reveal", "nofog"]));
    assert_eq!((o.seed, o.reveal_mode), (None, RevealMode::NoFog));
    let o = parse_args(&args(&["d", "d", "nofog", "perhaps"]));
    assert_eq!(o.reveal_mode, RevealMode::NoFog);
}

#[test]
fn seeds_are_decimal_numbers() {
    for (word, seed) in [
        ("0", Some(0)),
        ("+7", Some(7)),
        ("18446744073709551615", Some(u64::MAX)),
        ("18446744073709551616", None),
        ("-1", None),
        ("", None),
        ("+", None),
        (" 5", None),
        ("1_000", None),
        ("0x10", None),
        ("0042", Some(42)),
    ] {
        assert_eq!(parse_args(&args(&["d", "d", word])).seed, seed, "{word:?}");
    }
}

#[test]
fn reveal_words() {
    assert_eq!(mode_from_word(&"reveal".to_string()), Some(RevealMode::Full));
    assert_eq!(mode_from_word(&"nofog".to_string()), Some(RevealMode::NoFog));
    assert_eq!(mode_from_word(&"fog".to_string()), None);
}
