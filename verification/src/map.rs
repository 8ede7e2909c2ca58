//! Map presets and visual themes, and how both are named on the command line.

use crate::world::{BiomeId, ResourceKind, WorldConfig};
use std::str::FromStr;
use vstd::prelude::*;
use vstd::string::StringExecFns;

verus! {

/// A terminal color.
#[derive(Debug, Clone, Copy, PartialEq, Eq, Structural)]
pub enum Color {
    Reset,
    Black,
    Red,
    Green,
    Yellow,
    Blue,
    Magenta,
    Cyan,
    Gray,
    DarkGray,
    LightRed,
    LightGreen,
    LightYellow,
    LightBlue,
    LightMagenta,
    LightCyan,
    White,
    Rgb(u8, u8, u8),
    Indexed(u8),
}

/// Pre-built world-generation presets that tweak the terrain noise.
#[derive(Debug, Clone, Copy, PartialEq, Eq, Structural)]
pub enum MapPreset {
    /// Balanced mix of open space and obstacles.
    Default,
    /// Tight winding passages and dead-ends.
    Cavern,
    /// Many small obstacle clusters scattered like tree groves.
    Forest,
    /// Large impassable water bodies with narrow land bridges.
    Archipelago,
    /// Wide-open terrain with only sparse rocks.
    Plains,
    /// Small open map for quick runs.
    Compact,
}

impl MapPreset {
    /// The configuration that the preset stands for.
    pub open spec fn settings(self) -> WorldConfig {
        let base = WorldConfig::standard();
        match self {
            MapPreset::Default => base,
            MapPreset::Cavern => WorldConfig { obstacle_threshold: (-80_000) as i64, obstacle_frequency: 40_000, ..base },
            MapPreset::Forest => WorldConfig { obstacle_threshold: 100_000, obstacle_frequency: 120_000, ..base },
            MapPreset::Archipelago => WorldConfig {
                obstacle_threshold: (-120_000) as i64,
                obstacle_frequency: 30_000,
                ..base
            },
            MapPreset::Plains => WorldConfig { obstacle_threshold: 350_000, obstacle_frequency: 50_000, ..base },
            MapPreset::Compact => WorldConfig {
                width: 32,
                height: 20,
                obstacle_threshold: 350_000,
                obstacle_frequency: 50_000,
                base_safety_radius: 3,
                energy_nodes: 4,
                crystal_nodes: 4,
            },
        }
    }

    /// Convert a preset into its [`WorldConfig`].
    pub fn config(&self) -> (config: WorldConfig)
        ensures
            config == self.settings(),
    {
        let base = WorldConfig::default();
        match self {
            MapPreset::Default => base,
            MapPreset::Cavern => WorldConfig { obstacle_threshold: -80_000, obstacle_frequency: 40_000, ..base },
            MapPreset::Forest => WorldConfig { obstacle_threshold: 100_000, obstacle_frequency: 120_000, ..base },
            MapPreset::Archipelago => WorldConfig {
                obstacle_threshold: -120_000,
                obstacle_frequency: 30_000,
                ..base
            },
            MapPreset::Plains => WorldConfig { obstacle_threshold: 350_000, obstacle_frequency: 50_000, ..base },
            MapPreset::Compact => WorldConfig {
                width: 32,
                height: 20,
                obstacle_threshold: 350_000,
                obstacle_frequency: 50_000,
                base_safety_radius: 3,
                energy_nodes: 4,
                crystal_nodes: 4,
            },
        }
    }

    /// The preset that a lower-case word names.
    pub open spec fn named(word: Seq<char>) -> Option<MapPreset> {
        if word == "default"@ || word == "d"@ {
            Some(MapPreset::Default)
        } else if word == "cavern"@ || word == "cave"@ || word == "c"@ {
            Some(MapPreset::Cavern)
        } else if word == "forest"@ || word == "f"@ {
            Some(MapPreset::Forest)
        } else if word == "archipelago"@ || word == "archi"@ || word == "a"@ {
            Some(MapPreset::Archipelago)
        } else if word == "plains"@ || word == "open"@ || word == "p"@ {
            Some(MapPreset::Plains)
        } else if word == "compact"@ || word == "small"@ {
            Some(MapPreset::Compact)
        } else {
            None
        }
    }

    /// What is said of a word that names no preset.
    pub open spec fn complaint(word: Seq<char>) -> Seq<char> {
        "unknown preset '"@ + word + "'. try: default, cavern, forest, archipelago, plains, compact"@
    }

    /// The preset that a lower-case word names, or what to tell the user.
    pub fn from_word(word: &String) -> (preset: Result<MapPreset, String>)
        ensures
            match preset {
                Ok(preset) => MapPreset::named(word@) == Some(preset),
                Err(text) => MapPreset::named(word@) is None && text@ == MapPreset::complaint(word@),
            },
    {
        if is(word, "default") || is(word, "d") {
            Ok(MapPreset::Default)
        } else if is(word, "cavern") || is(word, "cave") || is(word, "c") {
            Ok(MapPreset::Cavern)
        } else if is(word, "forest") || is(word, "f") {
            Ok(MapPreset::Forest)
        } else if is(word, "archipelago") || is(word, "archi") || is(word, "a") {
            Ok(MapPreset::Archipelago)
        } else if is(word, "plains") || is(word, "open") || is(word, "p") {
            Ok(MapPreset::Plains)
        } else if is(word, "compact") || is(word, "small") {
            Ok(MapPreset::Compact)
        } else {
            let mut text = "unknown preset '".to_owned();
            text.append(word.as_str());
            text.append("'. try: default, cavern, forest, archipelago, plains, compact");
            Err(text)
        }
    }
}

impl FromStr for MapPreset {
    type Err = String;

    /// Reads a preset, in whatever case it is written.
    fn from_str(text: &str) -> (preset: Result<Self, String>)
        ensures
            match preset {
                Ok(preset) => MapPreset::named(lowercase(text@)) == Some(preset),
                Err(said) => {
                    &&& MapPreset::named(lowercase(text@)) is None
                    &&& said@ == MapPreset::complaint(lowercase(text@))
                },
            },
    {
        MapPreset::from_word(&to_lowercase(text))
    }
}

/// What `str::to_lowercase` makes of a text.
pub uninterp spec fn lowercase(text: Seq<char>) -> Seq<char>;

/// `str::to_lowercase`: the text in lower case, a function of the text alone.
#[verifier::external_body]
pub(crate) fn to_lowercase(text: &str) -> (lower: String)
    ensures
        lower@ == lowercase(text@),
{
    text.to_lowercase()
}

/// Whether a text is a given word.
pub(crate) fn is(text: &String, word: &str) -> (same: bool)
    ensures
        same == (text@ == word@),
{
    *text == word.to_owned()
}

/// Controls the characters and colors used to render every element on the map.
///
/// Obstacle characters are drawn from a palette (with biome-based variety)
/// so the same logical obstacle can appear as different glyphs in coherent
/// terrain patches (lakes, forests, mountains).
#[derive(Debug, Clone)]
pub struct VisualTheme {
    pub name: &'static str,
    pub obstacle_palette: Vec<&'static str>,
    pub energy_char: &'static str,
    pub crystal_char: &'static str,
    pub base_char: &'static str,
    pub scout_char: &'static str,
    pub collector_char: &'static str,
    pub ground_char: &'static str,
    pub fog_char: &'static str,
    pub obstacle_color: Color,
    pub energy_color: Color,
    pub crystal_color: Color,
    pub base_color: Color,
    pub scout_color: Color,
    pub collector_color: Color,
    pub ground_color: Color,
    pub fog_color: Color,
    /// How many terminal columns each map cell occupies: `1` for single-width
    /// glyphs, `2` for double-width emojis. Single-width glyphs are then padded
    /// with a space so the grid never shifts.
    pub cell_width: u8,
    /// Colors for obstacle variety. If empty, all obstacles have
    /// `obstacle_color`.
    pub obstacle_color_palette: Vec<Color>,
}

/// What a theme holds, as mathematics.
#[verifier::ext_equal]
pub struct ThemeView {
    pub name: &'static str,
    pub obstacle_palette: Seq<&'static str>,
    pub energy_char: &'static str,
    pub crystal_char: &'static str,
    pub base_char: &'static str,
    pub scout_char: &'static str,
    pub collector_char: &'static str,
    pub ground_char: &'static str,
    pub fog_char: &'static str,
    pub obstacle_color: Color,
    pub energy_color: Color,
    pub crystal_color: Color,
    pub base_color: Color,
    pub scout_color: Color,
    pub collector_color: Color,
    pub ground_color: Color,
    pub fog_color: Color,
    pub cell_width: u8,
    pub obstacle_color_palette: Seq<Color>,
}

/// The palette entry of a biome: the palette is spread evenly over the biomes.
pub open spec fn shade_of(biome: BiomeId, len: nat) -> int {
    (biome * len) / 256
}

impl ThemeView {
    /// The default theme: plain letters and signs.
    pub open spec fn standard_look() -> ThemeView {
        ThemeView {
            name: "default",
            obstacle_palette: seq!["O"],
            energy_char: "E",
            crystal_char: "C",
            base_char: "#",
            scout_char: "x",
            collector_char: "o",
            ground_char: " ",
            fog_char: ".",
            obstacle_color: Color::LightCyan,
            energy_color: Color::Green,
            crystal_color: Color::LightMagenta,
            base_color: Color::LightGreen,
            scout_color: Color::Red,
            collector_color: Color::Magenta,
            ground_color: Color::DarkGray,
            fog_color: Color::Black,
            cell_width: 1,
            obstacle_color_palette: Seq::empty(),
        }
    }

    /// Retro ASCII theme: uppercase letters and signs only.
    pub open spec fn retro_look() -> ThemeView {
        ThemeView {
            name: "retro",
            obstacle_palette: seq!["#", "%", "&", "@"],
            energy_char: "E",
            crystal_char: "C",
            base_char: "H",
            scout_char: "S",
            collector_char: "R",
            ground_char: " ",
            fog_char: "·",
            obstacle_color: Color::White,
            energy_color: Color::Yellow,
            crystal_color: Color::Cyan,
            base_color: Color::Green,
            scout_color: Color::Red,
            collector_color: Color::Blue,
            ground_color: Color::DarkGray,
            fog_color: Color::Black,
            cell_width: 1,
            obstacle_color_palette: seq![Color::White, Color::Yellow, Color::LightRed, Color::LightCyan],
        }
    }

    /// Single-width Unicode symbols, one column each.
    pub open spec fn symbols_look() -> ThemeView {
        ThemeView {
            name: "symbols",
            obstacle_palette: seq!["◆", "▲", "■", "●"],
            energy_char: "⚡",
            crystal_char: "♦",
            base_char: "⌂",
            scout_char: "●",
            collector_char: "○",
            ground_char: "·",
            fog_char: "░",
            obstacle_color: Color::Gray,
            energy_color: Color::Yellow,
            crystal_color: Color::LightMagenta,
            base_color: Color::LightGreen,
            scout_color: Color::Red,
            collector_color: Color::LightBlue,
            ground_color: Color::DarkGray,
            fog_color: Color::Rgb(30, 30, 40),
            cell_width: 1,
            obstacle_color_palette: seq![Color::Gray, Color::LightGreen, Color::LightCyan, Color::LightRed],
        }
    }

    /// Full-color emoji theme. Each cell occupies two terminal columns:
    /// water, woods and rocks as the biome rises.
    pub open spec fn emoji_look() -> ThemeView {
        ThemeView {
            name: "emoji",
            obstacle_palette: seq!["💧", "🌳", "🪨"],
            energy_char: "⚡",
            crystal_char: "💎",
            base_char: "🏠",
            scout_char: "🔍",
            collector_char: "🤖",
            ground_char: "·",
            fog_char: "░",
            obstacle_color: Color::Gray,
            energy_color: Color::Yellow,
            crystal_color: Color::LightMagenta,
            base_color: Color::LightGreen,
            scout_color: Color::Red,
            collector_color: Color::LightBlue,
            ground_color: Color::DarkGray,
            fog_color: Color::Rgb(30, 30, 40),
            cell_width: 2,
            obstacle_color_palette: seq![Color::LightBlue, Color::Green, Color::Gray],
        }
    }

    /// The theme that a lower-case word names.
    pub open spec fn named(word: Seq<char>) -> Option<ThemeView> {
        if word == "default"@ || word == "d"@ {
            Some(ThemeView::standard_look())
        } else if word == "retro"@ || word == "r"@ {
            Some(ThemeView::retro_look())
        } else if word == "symbols"@ || word == "sym"@ || word == "s"@ {
            Some(ThemeView::symbols_look())
        } else if word == "emoji"@ || word == "e"@ {
            Some(ThemeView::emoji_look())
        } else {
            None
        }
    }

    /// What is said of a word that names no theme.
    pub open spec fn complaint(word: Seq<char>) -> Seq<char> {
        "unknown visual theme '"@ + word + "'. try: default, retro, symbols, emoji"@
    }

    /// The character of an obstacle of a biome.
    pub open spec fn obstacle_glyph(self, biome: BiomeId) -> &'static str {
        if self.obstacle_palette.len() == 0 {
            "O"
        } else {
            self.obstacle_palette[shade_of(biome, self.obstacle_palette.len())]
        }
    }

    /// The color of an obstacle of a biome.
    pub open spec fn obstacle_tint(self, biome: BiomeId) -> Color {
        if self.obstacle_color_palette.len() == 0 {
            self.obstacle_color
        } else {
            self.obstacle_color_palette[shade_of(biome, self.obstacle_color_palette.len())]
        }
    }

    /// Character and color of a resource.
    pub open spec fn resource_look(self, kind: ResourceKind) -> (&'static str, Color) {
        match kind {
            ResourceKind::Energy => (self.energy_char, self.energy_color),
            ResourceKind::Crystal => (self.crystal_char, self.crystal_color),
        }
    }
}

impl View for VisualTheme {
    type V = ThemeView;

    open spec fn view(&self) -> ThemeView {
        ThemeView {
            name: self.name,
            obstacle_palette: self.obstacle_palette@,
            energy_char: self.energy_char,
            crystal_char: self.crystal_char,
            base_char: self.base_char,
            scout_char: self.scout_char,
            collector_char: self.collector_char,
            ground_char: self.ground_char,
            fog_char: self.fog_char,
            obstacle_color: self.obstacle_color,
            energy_color: self.energy_color,
            crystal_color: self.crystal_color,
            base_color: self.base_color,
            scout_color: self.scout_color,
            collector_color: self.collector_color,
            ground_color: self.ground_color,
            fog_color: self.fog_color,
            cell_width: self.cell_width,
            obstacle_color_palette: self.obstacle_color_palette@,
        }
    }
}

/// The palette entry of a biome, in a palette that is not empty.
fn palette_index(biome: BiomeId, len: usize) -> (idx: usize)
    requires
        len > 0,
    ensures
        idx == shade_of(biome, len as nat),
        idx < len,
{
    proof {
        assert(0 <= biome * len <= 255 * len) by (nonlinear_arith)
            requires
                0 <= biome <= 255,
                0 < len,
        ;
    }
    (biome as u128 * len as u128 / 256) as usize
}

impl VisualTheme {
    /// The default theme: plain letters and signs.
    pub fn standard() -> (theme: VisualTheme)
        ensures
            theme@ == ThemeView::standard_look(),
    {
        VisualTheme {
            name: "default",
            obstacle_palette: vec!["O"],
            energy_char: "E",
            crystal_char: "C",
            base_char: "#",
            scout_char: "x",
            collector_char: "o",
            ground_char: " ",
            fog_char: ".",
            obstacle_color: Color::LightCyan,
            energy_color: Color::Green,
            crystal_color: Color::LightMagenta,
            base_color: Color::LightGreen,
            scout_color: Color::Red,
            collector_color: Color::Magenta,
            ground_color: Color::DarkGray,
            fog_color: Color::Black,
            cell_width: 1,
            obstacle_color_palette: Vec::new(),
        }
    }

    /// Retro ASCII theme: uppercase letters and signs only.
    pub fn retro() -> (theme: VisualTheme)
        ensures
            theme@ == ThemeView::retro_look(),
    {
        VisualTheme {
            name: "retro",
            obstacle_palette: vec!["#", "%", "&", "@"],
            energy_char: "E",
            crystal_char: "C",
            base_char: "H",
            scout_char: "S",
            collector_char: "R",
            ground_char: " ",
            fog_char: "·",
            obstacle_color: Color::White,
            energy_color: Color::Yellow,
            crystal_color: Color::Cyan,
            base_color: Color::Green,
            scout_color: Color::Red,
            collector_color: Color::Blue,
            ground_color: Color::DarkGray,
            fog_color: Color::Black,
            cell_width: 1,
            obstacle_color_palette: vec![Color::White, Color::Yellow, Color::LightRed, Color::LightCyan],
        }
    }

    /// Single-width Unicode symbols, one column each.
    pub fn symbols() -> (theme: VisualTheme)
        ensures
            theme@ == ThemeView::symbols_look(),
    {
        VisualTheme {
            name: "symbols",
            obstacle_palette: vec!["◆", "▲", "■", "●"],
            energy_char: "⚡",
            crystal_char: "♦",
            base_char: "⌂",
            scout_char: "●",
            collector_char: "○",
            ground_char: "·",
            fog_char: "░",
            obstacle_color: Color::Gray,
            energy_color: Color::Yellow,
            crystal_color: Color::LightMagenta,
            base_color: Color::LightGreen,
            scout_color: Color::Red,
            collector_color: Color::LightBlue,
            ground_color: Color::DarkGray,
            fog_color: Color::Rgb(30, 30, 40),
            cell_width: 1,
            obstacle_color_palette: vec![Color::Gray, Color::LightGreen, Color::LightCyan, Color::LightRed],
        }
    }

    /// Full-color emoji theme. Each cell occupies two terminal columns:
    /// water, woods and rocks as the biome rises.
    pub fn emoji() -> (theme: VisualTheme)
        ensures
            theme@ == ThemeView::emoji_look(),
    {
        VisualTheme {
            name: "emoji",
            obstacle_palette: vec!["💧", "🌳", "🪨"],
            energy_char: "⚡",
            crystal_char: "💎",
            base_char: "🏠",
            scout_char: "🔍",
            collector_char: "🤖",
            ground_char: "·",
            fog_char: "░",
            obstacle_color: Color::Gray,
            energy_color: Color::Yellow,
            crystal_color: Color::LightMagenta,
            base_color: Color::LightGreen,
            scout_color: Color::Red,
            collector_color: Color::LightBlue,
            ground_color: Color::DarkGray,
            fog_color: Color::Rgb(30, 30, 40),
            cell_width: 2,
            obstacle_color_palette: vec![Color::LightBlue, Color::Green, Color::Gray],
        }
    }

    /// Pick an obstacle character based on biome identifier for terrain
    /// variety.
    ///
    /// The biome value (0..=255) maps to palette entries, producing coherent
    /// terrain patches: low values for wet terrain, mid values for vegetation,
    /// high values for rock.
    pub fn obstacle_char(&self, biome: BiomeId) -> (glyph: &'static str)
        ensures
            glyph == self@.obstacle_glyph(biome),
    {
        if self.obstacle_palette.len() == 0 {
            return "O";
        }
        self.obstacle_palette[palette_index(biome, self.obstacle_palette.len())]
    }

    /// Biome-aware color for the obstacle at the given biome identifier.
    pub fn obstacle_color_for(&self, biome: BiomeId) -> (color: Color)
        ensures
            color == self@.obstacle_tint(biome),
    {
        if self.obstacle_color_palette.len() == 0 {
            return self.obstacle_color;
        }
        self.obstacle_color_palette[palette_index(biome, self.obstacle_color_palette.len())]
    }

    /// Character + color for a resource of the given kind.
    pub fn resource_display(&self, kind: ResourceKind) -> (look: (&'static str, Color))
        ensures
            look == self@.resource_look(kind),
    {
        match kind {
            ResourceKind::Energy => (self.energy_char, self.energy_color),
            ResourceKind::Crystal => (self.crystal_char, self.crystal_color),
        }
    }

    /// The theme that a lower-case word names, or what to tell the user.
    pub fn from_word(word: &String) -> (theme: Result<VisualTheme, String>)
        ensures
            match theme {
                Ok(theme) => ThemeView::named(word@) == Some(theme@),
                Err(text) => ThemeView::named(word@) is None && text@ == ThemeView::complaint(word@),
            },
    {
        if is(word, "default") || is(word, "d") {
            Ok(VisualTheme::standard())
        } else if is(word, "retro") || is(word, "r") {
            Ok(VisualTheme::retro())
        } else if is(word, "symbols") || is(word, "sym") || is(word, "s") {
            Ok(VisualTheme::symbols())
        } else if is(word, "emoji") || is(word, "e") {
            Ok(VisualTheme::emoji())
        } else {
            let mut text = "unknown visual theme '".to_owned();
            text.append(word.as_str());
            text.append("'. try: default, retro, symbols, emoji");
            Err(text)
        }
    }
}

impl FromStr for VisualTheme {
    type Err = String;

    /// Reads a theme, in whatever case it is written.
    fn from_str(text: &str) -> (theme: Result<Self, String>)
        ensures
            match theme {
                Ok(theme) => ThemeView::named(lowercase(text@)) == Some(theme@),
                Err(said) => {
                    &&& ThemeView::named(lowercase(text@)) is None
                    &&& said@ == ThemeView::complaint(lowercase(text@))
                },
            },
    {
        VisualTheme::from_word(&to_lowercase(text))
    }
}

/// Every preset is a configuration that world generation accepts.
pub proof fn law_presets_are_valid(preset: MapPreset)
    ensures
        preset.settings().defect() is None,
{
}

/// A palette is spread evenly over the biomes: its entry `k` stands for those
/// from `k` parts of the scale up to the next part, lowest first. The lowest
/// biome has the first entry, and a higher one never an earlier.
pub proof fn law_palette_is_spread_evenly(biome: BiomeId, higher: BiomeId, len: nat, k: int)
    requires
        0 < len,
        biome <= higher,
    ensures
        shade_of(biome, len) == k <==> 256 * k <= biome * len < 256 * (k + 1),
        0 <= shade_of(biome, len) < len,
        shade_of(biome, len) <= shade_of(higher, len),
        shade_of(0, len) == 0,
        len <= 256 ==> shade_of(255, len) == len - 1,
{
    let b = biome as int;
    let n = len as int;
    assert(0 <= b * n <= 255 * n) by (nonlinear_arith)
        requires
            0 <= b <= 255,
            0 < n,
    ;
    assert(b * n <= higher * n) by (nonlinear_arith)
        requires
            b <= higher,
            0 < n,
    ;
    assert(0 * n == 0) by (nonlinear_arith);
}

/// An obstacle has the palette entry of its biome as its glyph and as its color;
/// a theme without a palette has one look for all.
pub proof fn law_obstacles_look_like_their_biome(theme: ThemeView, biome: BiomeId, k: int, j: int)
    requires
        256 * k <= biome * theme.obstacle_palette.len() < 256 * (k + 1),
        256 * j <= biome * theme.obstacle_color_palette.len() < 256 * (j + 1),
    ensures
        theme.obstacle_palette.len() > 0 ==> theme.obstacle_glyph(biome) == theme.obstacle_palette[k],
        theme.obstacle_palette.len() == 0 ==> theme.obstacle_glyph(biome) == "O",
        theme.obstacle_color_palette.len() > 0 ==> theme.obstacle_tint(biome) == theme.obstacle_color_palette[j],
        theme.obstacle_color_palette.len() == 0 ==> theme.obstacle_tint(biome) == theme.obstacle_color,
{
}

/// A resource has the glyph and the color of its kind.
pub proof fn law_resources_look_like_their_kind(theme: ThemeView)
    ensures
        theme.resource_look(ResourceKind::Energy).0 == theme.energy_char,
        theme.resource_look(ResourceKind::Energy).1 == theme.energy_color,
        theme.resource_look(ResourceKind::Crystal).0 == theme.crystal_char,
        theme.resource_look(ResourceKind::Crystal).1 == theme.crystal_color,
{
}

/// The presets differ as they are described: the lower the threshold, the more
/// obstacles, from water with narrow bridges over tight passages and the balanced
/// map to groves and plains; the higher the frequency, the smaller the patches.
/// All maps have the same size and resources but the compact one, which is as
/// open as the plains and smaller in everything else.
pub proof fn law_presets_are_as_described(preset: MapPreset)
    ensures
        ({
            let balanced = MapPreset::Default.settings();
            let compact = MapPreset::Compact.settings();
            let plains = MapPreset::Plains.settings();
            let islands = MapPreset::Archipelago.settings();
            let cavern = MapPreset::Cavern.settings();
            let forest = MapPreset::Forest.settings();
            let s = preset.settings();
            &&& islands.obstacle_threshold < cavern.obstacle_threshold < 0 < balanced.obstacle_threshold
                < forest.obstacle_threshold < plains.obstacle_threshold == compact.obstacle_threshold
            &&& islands.obstacle_frequency < cavern.obstacle_frequency < plains.obstacle_frequency
                == compact.obstacle_frequency < balanced.obstacle_frequency < forest.obstacle_frequency
            &&& preset != MapPreset::Compact ==> s.width == balanced.width && s.height == balanced.height
                && s.base_safety_radius == balanced.base_safety_radius && s.energy_nodes == balanced.energy_nodes
                && s.crystal_nodes == balanced.crystal_nodes
            &&& compact.width < balanced.width && compact.height < balanced.height && compact.base_safety_radius
                < balanced.base_safety_radius && compact.energy_nodes < balanced.energy_nodes
            &&& s.energy_nodes == s.crystal_nodes
        }),
{
}

/// Whatever the theme, what differs on the map differs on the screen: robots of
/// the two kinds, resources of the two kinds, and each of these from bare ground.
/// Scouts are always red, and only emoji take two columns.
pub proof fn law_themes_tell_things_apart(word: Seq<char>)
    requires
        ThemeView::named(word) is Some,
    ensures
        ({
            let theme = ThemeView::named(word)->0;
            &&& theme.scout_color == Color::Red
            &&& theme.ground_color == Color::DarkGray
            &&& theme.scout_color != theme.collector_color
            &&& theme.energy_color != theme.crystal_color
            &&& theme.energy_color != theme.scout_color && theme.crystal_color != theme.scout_color
            &&& theme.base_color != theme.ground_color && theme.energy_color != theme.ground_color
            &&& theme.obstacle_palette.len() > 0
            &&& theme.obstacle_color_palette.len() == 0 || theme.obstacle_color_palette.len()
                == theme.obstacle_palette.len()
            &&& theme.cell_width == 1 || theme == ThemeView::emoji_look()
            &&& ThemeView::emoji_look().cell_width == 2
        }),
{
}

} // verus!
