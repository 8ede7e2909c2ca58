//! What is drawn: the look of every cell and the content of the status panel.

use crate::app::{AppSnapshot, RobotKind};
use crate::grid::{adjacent, flat, neighbor_of, on_map};
use crate::grid::{flat_index, lemma_flat, lemma_neighbors, neighbor};
use crate::map::Color;
use crate::world::{Cell, Position, ResourceKind};
use vstd::arithmetic::div_mod::{lemma_div_is_ordered, lemma_fundamental_div_mod};
use vstd::prelude::*;

verus! {

/// How a glyph is colored.
#[derive(Debug, Clone, Copy, PartialEq, Eq, Structural)]
pub enum Shade {
    /// The color as it is.
    Plain(Color),
    /// The color of the base, which pulses with the ticks.
    BasePulse(Color),
    /// The color of a resource, which pulses with the ticks and whitens as the
    /// resource is used up.
    ResourcePulse { color: Color, remaining: u16, initial: u16 },
    /// The color of fog next to what is revealed, much darkened.
    FogEdge(Color),
}

/// What a cell looks like.
#[derive(Debug, Clone, Copy, PartialEq, Eq)]
pub struct Look {
    pub glyph: &'static str,
    pub shade: Shade,
}

/// A piece of text in the status panel.
#[derive(Debug, Clone, Copy, PartialEq, Eq)]
pub enum Text {
    Words(&'static str),
    /// A glyph with a space on either side.
    Icon(&'static str),
    /// A number, as wide as it is.
    Number(u64),
    /// A number flush left in six columns.
    Column(u64),
    /// A number and what it counts.
    Count(u16, &'static str),
}

/// A piece of text with its style; no color is the terminal's own.
#[derive(Debug, Clone, Copy, PartialEq, Eq)]
pub struct Segment {
    pub text: Text,
    pub color: Option<Color>,
    pub bold: bool,
}

/// A segment that is not bold.
pub open spec fn thin(text: Text, color: Color) -> Segment {
    Segment { text, color: Some(color), bold: false }
}

/// A segment that is bold.
pub open spec fn bold(text: Text, color: Color) -> Segment {
    Segment { text, color: Some(color), bold: true }
}

/// A segment in the terminal's own color.
pub open spec fn raw(words: &'static str) -> Segment {
    Segment { text: Text::Words(words), color: None, bold: false }
}

/// Red, green and blue of a color.
pub open spec fn rgb_of(color: Color) -> (u8, u8, u8) {
    match color {
        Color::Rgb(r, g, b) => (r, g, b),
        Color::Black => (0, 0, 0),
        Color::White => (255, 255, 255),
        Color::Red => (255, 0, 0),
        Color::Green => (0, 255, 0),
        Color::Blue => (0, 0, 255),
        Color::Yellow => (255, 255, 0),
        Color::Magenta => (255, 0, 255),
        Color::Cyan => (0, 255, 255),
        Color::DarkGray => (64, 64, 64),
        Color::LightRed => (255, 204, 203),
        Color::LightGreen => (144, 238, 144),
        Color::LightBlue => (173, 216, 230),
        Color::LightCyan => (224, 255, 255),
        Color::LightMagenta => (255, 224, 255),
        Color::LightYellow => (255, 255, 224),
        Color::Gray | Color::Reset | Color::Indexed(_) => (128, 128, 128),
    }
}

/// Red, green and blue of a color.
pub fn color_rgb(color: Color) -> (rgb: (u8, u8, u8))
    ensures
        rgb == rgb_of(color),
{
    match color {
        Color::Rgb(r, g, b) => (r, g, b),
        Color::Black => (0, 0, 0),
        Color::White => (255, 255, 255),
        Color::Red => (255, 0, 0),
        Color::Green => (0, 255, 0),
        Color::Blue => (0, 0, 255),
        Color::Yellow => (255, 255, 0),
        Color::Magenta => (255, 0, 255),
        Color::Cyan => (0, 255, 255),
        Color::DarkGray => (64, 64, 64),
        Color::LightRed => (255, 204, 203),
        Color::LightGreen => (144, 238, 144),
        Color::LightBlue => (173, 216, 230),
        Color::LightCyan => (224, 255, 255),
        Color::LightMagenta => (255, 224, 255),
        Color::LightYellow => (255, 255, 224),
        Color::Gray | Color::Reset | Color::Indexed(_) => (128, 128, 128),
    }
}

/// The terminal columns that `Span::width` counts in a text.
pub uninterp spec fn columns_of(text: Seq<char>) -> nat;

/// `ratatui::text::Span::width`: how many terminal columns a text fills, a
/// function of the text alone.
#[verifier::external_body]
fn columns(text: &str) -> (width: usize)
    ensures
        width == columns_of(text@),
{
    ratatui::text::Span::raw(text).width()
}

/// Whether a glyph that is `columns` wide is followed by a space, so that it
/// fills a cell of `cell_width` columns.
pub fn needs_padding(cell_width: u8, columns: usize) -> (pads: bool)
    ensures
        pads == (cell_width > 1 && columns < 2),
{
    cell_width > 1 && columns < 2
}

/// Whether a glyph is followed by a space, so that the grid never shifts.
pub fn is_padded(cell_width: u8, glyph: &str) -> (pads: bool)
    ensures
        pads == (cell_width > 1 && columns_of(glyph@) < 2),
{
    needs_padding(cell_width, columns(glyph))
}

impl AppSnapshot<'_> {
    /// The caches cover the map and its resources.
    pub open spec fn wf(&self) -> bool {
        let world = self.sim_world@;
        &&& self.sim_world.wf()
        &&& self.robot_at@.len() == world.cells.len()
        &&& self.revealed_cache@.len() == world.cells.len()
        &&& self.stock_at_cache@.len() == world.cells.len()
        &&& self.stock_remaining_cache@.len() == world.resources.len()
        &&& self.stock_initial_cache@.len() == world.resources.len()
        &&& self.resource_discovered_cache@.len() == world.resources.len()
        &&& self.cached_remaining <= self.cached_initial_total
        &&& forall|c: int|
            0 <= c < self.stock_at_cache@.len() ==> match #[trigger] self.stock_at_cache@[c] {
                Some(i) => i < world.resources.len(),
                None => true,
            }
    }

    /// Whether `p` lies on the map.
    pub open spec fn holds(&self, p: Position) -> bool {
        on_map(self.sim_world@.width as int, self.sim_world@.height as int, p)
    }

    /// The index of a cell.
    pub open spec fn at(&self, p: Position) -> int {
        flat(self.sim_world@.width as int, p)
    }

    /// Whether some neighbour of `p` is revealed.
    pub open spec fn borders_revealed(&self, p: Position) -> bool {
        exists|dir: int|
            0 <= dir < 4 && match #[trigger] neighbor_of(
                self.sim_world@.width as int,
                self.sim_world@.height as int,
                p,
                dir,
            ) {
                Some(q) => self.revealed_cache@[self.at(q)],
                None => false,
            }
    }

    /// The look of a cell that is not revealed.
    pub open spec fn fog_look(&self, p: Position) -> Look {
        let theme = self.visual_theme@;
        if self.borders_revealed(p) {
            Look {
                glyph: if theme.cell_width > 1 {
                    "·"
                } else {
                    "."
                },
                shade: Shade::FogEdge(theme.fog_color),
            }
        } else {
            Look { glyph: theme.fog_char, shade: Shade::Plain(theme.fog_color) }
        }
    }

    /// The look of a revealed cell without an obstacle: a resource that was
    /// discovered and has units left, or bare ground.
    pub open spec fn ground_look(&self, p: Position) -> Look {
        let theme = self.visual_theme@;
        let ground = Look { glyph: theme.ground_char, shade: Shade::Plain(theme.ground_color) };
        match self.stock_at_cache@[self.at(p)] {
            Some(i) => if self.resource_discovered_cache@[i as int] && self.stock_remaining_cache@[i as int] > 0 {
                let (glyph, color) = theme.resource_look(self.sim_world@.resources[i as int].kind);
                Look {
                    glyph,
                    shade: Shade::ResourcePulse {
                        color,
                        remaining: self.stock_remaining_cache@[i as int],
                        initial: self.stock_initial_cache@[i as int],
                    },
                }
            } else {
                ground
            },
            None => ground,
        }
    }

    /// The look of a cell: a robot, else the base, else fog, else what is there.
    pub open spec fn look(&self, p: Position) -> Look {
        let theme = self.visual_theme@;
        match self.robot_at@[self.at(p)] {
            Some(RobotKind::Scout) => Look { glyph: theme.scout_char, shade: Shade::Plain(theme.scout_color) },
            Some(RobotKind::Collector) => Look {
                glyph: theme.collector_char,
                shade: Shade::Plain(theme.collector_color),
            },
            None => if p == self.sim_world@.base {
                Look { glyph: theme.base_char, shade: Shade::BasePulse(theme.base_color) }
            } else if !self.revealed_cache@[self.at(p)] {
                self.fog_look(p)
            } else if self.sim_world@.cells[self.at(p)] == Cell::Obstacle {
                let biome = self.sim_world@.biomes[self.at(p)];
                Look { glyph: theme.obstacle_glyph(biome), shade: Shade::Plain(theme.obstacle_tint(biome)) }
            } else {
                self.ground_look(p)
            },
        }
    }

    /// Whether the mission is complete.
    pub open spec fn done(&self) -> bool {
        self.cached_remaining == 0
    }

    /// The title of the status panel.
    pub open spec fn title_segment(&self) -> Segment {
        if self.done() {
            bold(Text::Words(" ✓ Mission complete "), Color::LightGreen)
        } else {
            thin(Text::Words(" Resource Collection "), Color::Cyan)
        }
    }

    /// The row of the status panel with the tick and the robots.
    pub open spec fn robot_segments(&self) -> Seq<Segment> {
        seq![
            thin(Text::Words("Tick "), Color::DarkGray),
            bold(Text::Column(self.tick), Color::White),
            raw("  │  "),
            thin(Text::Count(self.num_scouts, "Scouts"), self.visual_theme@.scout_color),
            raw("  "),
            thin(Text::Count(self.num_collectors, "Collectors"), self.visual_theme@.collector_color),
        ]
    }

    /// The row of the status panel with what is at the base and what is left.
    pub open spec fn inventory_segments(&self) -> Seq<Segment> {
        let theme = self.visual_theme@;
        seq![
            bold(Text::Icon(theme.energy_char), theme.energy_color),
            thin(Text::Words("Energy "), Color::DarkGray),
            thin(Text::Column(self.cached_energy), theme.energy_color),
            raw("  │  "),
            bold(Text::Icon(theme.crystal_char), theme.crystal_color),
            thin(Text::Words("Crystals "), Color::DarkGray),
            thin(Text::Column(self.cached_crystals), theme.crystal_color),
            raw("  │  "),
            thin(Text::Words("Left "), Color::DarkGray),
            thin(
                Text::Number(self.cached_remaining),
                if self.done() {
                    Color::LightGreen
                } else {
                    Color::Yellow
                },
            ),
        ]
    }

    /// The looks of one row of the map.
    pub open spec fn row_looks(&self, y: int) -> Seq<Look> {
        Seq::new(self.sim_world@.width, |x: int| self.look(Position { x: x as usize, y: y as usize }))
    }
}

/// The look of a cell that is not revealed.
pub fn fog_display(snapshot: &AppSnapshot<'_>, pos: Position) -> (look: Look)
    requires
        snapshot.wf(),
        snapshot.holds(pos),
    ensures
        look == snapshot.fog_look(pos),
{
    let width = snapshot.sim_world.width();
    let height = snapshot.sim_world.height();
    let ghost w = width as int;
    let ghost h = height as int;
    let theme = snapshot.visual_theme;
    for dir in 0..4usize
        invariant
            snapshot.wf(),
            w == width,
            h == height,
            w == snapshot.sim_world@.width,
            h == snapshot.sim_world@.height,
            theme@ == snapshot.visual_theme@,
            forall|d: int|
                0 <= d < dir ==> match #[trigger] neighbor_of(w, h, pos, d) {
                    Some(q) => !snapshot.revealed_cache@[snapshot.at(q)],
                    None => true,
                },
    {
        if let Some(q) = neighbor(width, height, pos, dir) {
            let idx = flat_index(width, height, q);
            if snapshot.revealed_cache[idx] {
                assert(neighbor_of(w, h, pos, dir as int) == Some(q));
                let glyph = if theme.cell_width > 1 {
                    "·"
                } else {
                    "."
                };
                return Look { glyph, shade: Shade::FogEdge(theme.fog_color) };
            }
        }
    }
    Look { glyph: theme.fog_char, shade: Shade::Plain(theme.fog_color) }
}

/// The look of a cell.
pub fn cell_char(snapshot: &AppSnapshot<'_>, pos: Position) -> (look: Look)
    requires
        snapshot.wf(),
        snapshot.holds(pos),
    ensures
        look == snapshot.look(pos),
{
    let theme = snapshot.visual_theme;
    proof {
        lemma_flat(snapshot.sim_world@.width as int, snapshot.sim_world@.height as int, pos);
    }
    let idx = flat_index(snapshot.sim_world.width(), snapshot.sim_world.height(), pos);
    match snapshot.robot_at[idx] {
        Some(RobotKind::Scout) => {
            return Look { glyph: theme.scout_char, shade: Shade::Plain(theme.scout_color) };
        },
        Some(RobotKind::Collector) => {
            return Look { glyph: theme.collector_char, shade: Shade::Plain(theme.collector_color) };
        },
        None => {},
    }
    if pos == snapshot.sim_world.base() {
        return Look { glyph: theme.base_char, shade: Shade::BasePulse(theme.base_color) };
    }
    if !snapshot.revealed_cache[idx] {
        return fog_display(snapshot, pos);
    }
    if let Some(Cell::Obstacle) = snapshot.sim_world.cell(pos) {
        let biome = match snapshot.sim_world.obstacle_biome(pos) {
            Some(biome) => biome,
            None => 0,
        };
        return Look {
            glyph: theme.obstacle_char(biome),
            shade: Shade::Plain(theme.obstacle_color_for(biome)),
        };
    }
    if let Some(stock) = snapshot.stock_at_cache[idx] {
        assert(snapshot.stock_at_cache@[idx as int] is Some);
        let remaining = snapshot.stock_remaining_cache[stock];
        if snapshot.resource_discovered_cache[stock] && remaining > 0 {
            let (glyph, color) = theme.resource_display(snapshot.sim_world.resources()[stock].kind);
            let initial = snapshot.stock_initial_cache[stock];
            return Look { glyph, shade: Shade::ResourcePulse { color, remaining, initial } };
        }
    }
    Look { glyph: theme.ground_char, shade: Shade::Plain(theme.ground_color) }
}

/// The looks of one row of the map, from west to east.
pub fn map_row(snapshot: &AppSnapshot<'_>, y: usize) -> (row: Vec<Look>)
    requires
        snapshot.wf(),
        y < snapshot.sim_world@.height,
    ensures
        row@ == snapshot.row_looks(y as int),
{
    let width = snapshot.sim_world.width();
    let mut row: Vec<Look> = Vec::with_capacity(width);
    for x in 0..width
        invariant
            snapshot.wf(),
            y < snapshot.sim_world@.height,
            width == snapshot.sim_world@.width,
            row@ == snapshot.row_looks(y as int).take(x as int),
    {
        row.push(cell_char(snapshot, Position { x, y }));
        assert(row@ =~= snapshot.row_looks(y as int).take(x + 1));
    }
    assert(row@ =~= snapshot.row_looks(y as int));
    row
}

/// How much of what was placed has been taken off the map: a number of units,
/// and out of how many.
pub fn progress(snapshot: &AppSnapshot<'_>) -> (parts: (u64, u64))
    requires
        snapshot.wf(),
    ensures
        parts.1 == if snapshot.cached_initial_total == 0 {
            1
        } else {
            snapshot.cached_initial_total
        },
        parts.0 == if snapshot.done() {
            parts.1 as int
        } else {
            snapshot.cached_initial_total - snapshot.cached_remaining
        },
{
    let initial = if snapshot.cached_initial_total == 0 {
        1
    } else {
        snapshot.cached_initial_total
    };
    (initial - snapshot.cached_remaining, initial)
}

/// `part` out of `whole` in percent, rounded to the nearest number; half a
/// percent is rounded up.
pub open spec fn rounded_percent(part: int, whole: int) -> int {
    (200 * part + whole) / (2 * whole)
}

/// No whole number of percent is nearer to a part of a whole than the rounded
/// one, which is at most half a percent off and within a hundred.
pub proof fn law_percent_is_nearest(part: int, whole: int)
    requires
        0 <= part <= whole,
        0 < whole,
    ensures
        0 <= rounded_percent(part, whole) <= 100,
        -whole < 2 * (whole * rounded_percent(part, whole) - 100 * part) <= whole,
        part == whole ==> rounded_percent(part, whole) == 100,
        part == 0 ==> rounded_percent(part, whole) == 0,
{
    let top = 200 * part + whole;
    let p = rounded_percent(part, whole);
    lemma_fundamental_div_mod(top, 2 * whole);
    assert(0 <= top % (2 * whole) < 2 * whole);
    assert((2 * whole) * p == 2 * (whole * p)) by (nonlinear_arith);
    assert(0 <= p <= 100) by (nonlinear_arith)
        requires
            2 * (whole * p) <= 200 * part + whole,
            200 * part + whole < 2 * (whole * p) + 2 * whole,
            0 <= part <= whole,
            0 < whole,
    ;
    if part == whole {
        assert(p == 100) by (nonlinear_arith)
            requires
                200 * whole + whole < 2 * (whole * p) + 2 * whole,
                p <= 100,
                0 < whole,
        ;
    }
    if part == 0 {
        assert(p == 0) by (nonlinear_arith)
            requires
                2 * (whole * p) <= whole,
                0 <= p,
                0 < whole,
        ;
    }
}

/// The percentage of what was placed that has been taken off the map, for the
/// label of the gauge: 100 where nothing remains.
pub fn percent(snapshot: &AppSnapshot<'_>) -> (pct: u16)
    requires
        snapshot.wf(),
    ensures
        pct == if snapshot.done() {
            100
        } else {
            rounded_percent(
                snapshot.cached_initial_total - snapshot.cached_remaining,
                snapshot.cached_initial_total as int,
            )
        },
        pct <= 100,
{
    let (part, whole) = progress(snapshot);
    proof {
        law_percent_is_nearest(part as int, whole as int);
    }
    ((200 * part as u128 + whole as u128) / (2 * whole as u128)) as u16
}

fn segment(text: Text, color: Color, bold: bool) -> (segment: Segment)
    ensures
        segment == (Segment { text, color: Some(color), bold }),
{
    Segment { text, color: Some(color), bold }
}

/// The title of the status panel.
pub fn status_title(snapshot: &AppSnapshot<'_>) -> (title: Segment)
    ensures
        title == if snapshot.done() {
            bold(Text::Words(" ✓ Mission complete "), Color::LightGreen)
        } else {
            thin(Text::Words(" Resource Collection "), Color::Cyan)
        },
        title == snapshot.title_segment(),
{
    if snapshot.cached_remaining == 0 {
        segment(Text::Words(" ✓ Mission complete "), Color::LightGreen, true)
    } else {
        segment(Text::Words(" Resource Collection "), Color::Cyan, false)
    }
}

/// The color of the border of the status panel, and that of the gauge.
pub fn status_colors(snapshot: &AppSnapshot<'_>) -> (colors: (Color, Color))
    ensures
        colors == if snapshot.done() {
            (Color::LightGreen, Color::LightGreen)
        } else {
            (Color::DarkGray, Color::Green)
        },
{
    if snapshot.cached_remaining == 0 {
        (Color::LightGreen, Color::LightGreen)
    } else {
        (Color::DarkGray, Color::Green)
    }
}

/// The first row of the status panel: the tick and the robots.
pub fn robot_row(snapshot: &AppSnapshot<'_>) -> (row: Vec<Segment>)
    ensures
        row@ == seq![
            thin(Text::Words("Tick "), Color::DarkGray),
            bold(Text::Column(snapshot.tick), Color::White),
            raw("  │  "),
            thin(Text::Count(snapshot.num_scouts, "Scouts"), snapshot.visual_theme@.scout_color),
            raw("  "),
            thin(Text::Count(snapshot.num_collectors, "Collectors"), snapshot.visual_theme@.collector_color),
        ],
        row@ == snapshot.robot_segments(),
{
    let theme = snapshot.visual_theme;
    vec![
        segment(Text::Words("Tick "), Color::DarkGray, false),
        segment(Text::Column(snapshot.tick), Color::White, true),
        Segment { text: Text::Words("  │  "), color: None, bold: false },
        segment(Text::Count(snapshot.num_scouts, "Scouts"), theme.scout_color, false),
        Segment { text: Text::Words("  "), color: None, bold: false },
        segment(Text::Count(snapshot.num_collectors, "Collectors"), theme.collector_color, false),
    ]
}

/// The second row of the status panel: what is at the base and what is left.
pub fn inventory_row(snapshot: &AppSnapshot<'_>) -> (row: Vec<Segment>)
    ensures
        row@ == seq![
            bold(Text::Icon(snapshot.visual_theme@.energy_char), snapshot.visual_theme@.energy_color),
            thin(Text::Words("Energy "), Color::DarkGray),
            thin(Text::Column(snapshot.cached_energy), snapshot.visual_theme@.energy_color),
            raw("  │  "),
            bold(Text::Icon(snapshot.visual_theme@.crystal_char), snapshot.visual_theme@.crystal_color),
            thin(Text::Words("Crystals "), Color::DarkGray),
            thin(Text::Column(snapshot.cached_crystals), snapshot.visual_theme@.crystal_color),
            raw("  │  "),
            thin(Text::Words("Left "), Color::DarkGray),
            thin(
                Text::Number(snapshot.cached_remaining),
                if snapshot.done() {
                    Color::LightGreen
                } else {
                    Color::Yellow
                },
            ),
        ],
        row@ == snapshot.inventory_segments(),
{
    let theme = snapshot.visual_theme;
    let left_color = if snapshot.cached_remaining == 0 {
        Color::LightGreen
    } else {
        Color::Yellow
    };
    vec![
        segment(Text::Icon(theme.energy_char), theme.energy_color, true),
        segment(Text::Words("Energy "), Color::DarkGray, false),
        segment(Text::Column(snapshot.cached_energy), theme.energy_color, false),
        Segment { text: Text::Words("  │  "), color: None, bold: false },
        segment(Text::Icon(theme.crystal_char), theme.crystal_color, true),
        segment(Text::Words("Crystals "), Color::DarkGray, false),
        segment(Text::Column(snapshot.cached_crystals), theme.crystal_color, false),
        Segment { text: Text::Words("  │  "), color: None, bold: false },
        segment(Text::Words("Left "), Color::DarkGray, false),
        segment(Text::Number(snapshot.cached_remaining), left_color, false),
    ]
}

/// The last row of the status panel: how to leave. Any key does.
pub fn hint_row(snapshot: &AppSnapshot<'_>) -> (row: Vec<Segment>)
    ensures
        row@ == if snapshot.done() {
            seq![
                thin(Text::Words("Press "), Color::DarkGray),
                bold(Text::Words("any key"), Color::LightGreen),
                thin(Text::Words(" to exit"), Color::DarkGray),
            ]
        } else {
            seq![
                thin(Text::Words("● "), Color::Green),
                thin(Text::Words("Running"), Color::White),
                thin(Text::Words("  —  press "), Color::DarkGray),
                bold(Text::Words("any key"), Color::Yellow),
                thin(Text::Words(" to quit"), Color::DarkGray),
            ]
        },
{
    if snapshot.cached_remaining == 0 {
        vec![
            segment(Text::Words("Press "), Color::DarkGray, false),
            segment(Text::Words("any key"), Color::LightGreen, true),
            segment(Text::Words(" to exit"), Color::DarkGray, false),
        ]
    } else {
        vec![
            segment(Text::Words("● "), Color::Green, false),
            segment(Text::Words("Running"), Color::White, false),
            segment(Text::Words("  —  press "), Color::DarkGray, false),
            segment(Text::Words("any key"), Color::Yellow, true),
            segment(Text::Words(" to quit"), Color::DarkGray, false),
        ]
    }
}

/// Nothing of what fog covers is drawn: the look of a covered cell that holds no
/// robot and is not the base depends on the theme and the fog alone.
pub proof fn law_fog_hides_terrain(a: AppSnapshot<'_>, b: AppSnapshot<'_>, p: Position)
    requires
        a.visual_theme@ == b.visual_theme@,
        a.revealed_cache@ == b.revealed_cache@,
        a.sim_world@.width == b.sim_world@.width,
        a.sim_world@.height == b.sim_world@.height,
        a.robot_at@[a.at(p)] is None,
        b.robot_at@[b.at(p)] is None,
        p != a.sim_world@.base,
        p != b.sim_world@.base,
        !a.revealed_cache@[a.at(p)],
    ensures
        a.look(p) == b.look(p),
{
    assert(a.borders_revealed(p) == b.borders_revealed(p));
}

/// A robot is drawn on top of whatever is in its cell, fog and base included: a
/// scout as a scout, a collector as a collector.
pub proof fn law_robots_are_drawn_on_top(s: AppSnapshot<'_>, p: Position)
    ensures
        s.robot_at@[s.at(p)] == Some(RobotKind::Scout) ==> s.look(p).glyph == s.visual_theme@.scout_char && s.look(
            p,
        ).shade == Shade::Plain(s.visual_theme@.scout_color),
        s.robot_at@[s.at(p)] == Some(RobotKind::Collector) ==> s.look(p).glyph == s.visual_theme@.collector_char
            && s.look(p).shade == Shade::Plain(s.visual_theme@.collector_color),
{
}

/// Where no robot is, the base is always drawn, and pulses.
pub proof fn law_base_is_always_drawn(s: AppSnapshot<'_>)
    requires
        s.robot_at@[s.at(s.sim_world@.base)] is None,
    ensures
        s.look(s.sim_world@.base).glyph == s.visual_theme@.base_char,
        s.look(s.sim_world@.base).shade == Shade::BasePulse(s.visual_theme@.base_color),
{
}

/// Fog is drawn with an edge where a cell next to it is revealed, and plain
/// elsewhere.
pub proof fn law_fog_has_an_edge(s: AppSnapshot<'_>, p: Position)
    requires
        s.wf(),
        s.holds(p),
        s.robot_at@[s.at(p)] is None,
        p != s.sim_world@.base,
        !s.revealed_cache@[s.at(p)],
    ensures
        (exists|q: Position| #[trigger] adjacent(p, q) && s.holds(q) && s.revealed_cache@[s.at(q)]) ==> {
            &&& s.look(p).shade == Shade::FogEdge(s.visual_theme@.fog_color)
            &&& s.visual_theme@.cell_width <= 1 ==> s.look(p).glyph == "."
            &&& s.visual_theme@.cell_width > 1 ==> s.look(p).glyph == "·"
        },
        (forall|q: Position| #[trigger] adjacent(p, q) && s.holds(q) ==> !s.revealed_cache@[s.at(q)]) ==> s.look(p).shade
            == Shade::Plain(s.visual_theme@.fog_color) && s.look(p).glyph == s.visual_theme@.fog_char,
{
    let w = s.sim_world@.width as int;
    let h = s.sim_world@.height as int;
    if exists|q: Position| #[trigger] adjacent(p, q) && s.holds(q) && s.revealed_cache@[s.at(q)] {
        let q = choose|q: Position| #[trigger] adjacent(p, q) && s.holds(q) && s.revealed_cache@[s.at(q)];
        lemma_neighbors(w, h, p, q);
        let dir = choose|dir: int| 0 <= dir < 4 && #[trigger] neighbor_of(w, h, p, dir) == Some(q);
        assert(neighbor_of(w, h, p, dir) == Some(q));
        assert(s.borders_revealed(p));
    }
    if s.borders_revealed(p) {
        let dir = choose|dir: int|
            0 <= dir < 4 && match #[trigger] neighbor_of(w, h, p, dir) {
                Some(q) => s.revealed_cache@[s.at(q)],
                None => false,
            };
        let q = neighbor_of(w, h, p, dir)->0;
        lemma_neighbors(w, h, p, q);
        assert(adjacent(p, q));
    }
}

/// What is revealed is drawn as it is: an obstacle by its biome, a resource that
/// has been discovered and has units left by its kind and how much of it is left,
/// and everything else as ground.
pub proof fn law_revealed_cells_are_drawn_as_they_are(s: AppSnapshot<'_>, p: Position, i: usize)
    requires
        s.wf(),
        s.holds(p),
        s.robot_at@[s.at(p)] is None,
        p != s.sim_world@.base,
        s.revealed_cache@[s.at(p)],
    ensures
        ({
            let theme = s.visual_theme@;
            let obstacle = s.sim_world@.cells[s.at(p)] == Cell::Obstacle;
            let stock = s.stock_at_cache@[s.at(p)];
            let live = s.resource_discovered_cache@[i as int] && s.stock_remaining_cache@[i as int] > 0;
            &&& obstacle ==> s.look(p).glyph == theme.obstacle_glyph(s.sim_world@.biomes[s.at(p)]) && s.look(p).shade
                == Shade::Plain(theme.obstacle_tint(s.sim_world@.biomes[s.at(p)]))
            &&& !obstacle && stock == Some(i) && live ==> {
                &&& s.sim_world@.resources[i as int].kind == ResourceKind::Energy ==> s.look(p).glyph
                    == theme.energy_char && s.look(p).shade == (Shade::ResourcePulse {
                    color: theme.energy_color,
                    remaining: s.stock_remaining_cache@[i as int],
                    initial: s.stock_initial_cache@[i as int],
                })
                &&& s.sim_world@.resources[i as int].kind == ResourceKind::Crystal ==> s.look(p).glyph
                    == theme.crystal_char && s.look(p).shade == (Shade::ResourcePulse {
                    color: theme.crystal_color,
                    remaining: s.stock_remaining_cache@[i as int],
                    initial: s.stock_initial_cache@[i as int],
                })
            }
            &&& !obstacle && (stock is None || (stock == Some(i) && !live)) ==> s.look(p).glyph == theme.ground_char
                && s.look(p).shade == Shade::Plain(theme.ground_color)
        }),
{
}

/// A row of the map shows its cells from the first column to the last.
pub proof fn law_rows_show_every_column(s: AppSnapshot<'_>, x: usize, y: usize)
    requires
        x < s.sim_world@.width,
        y < s.sim_world@.height,
    ensures
        s.row_looks(y as int).len() == s.sim_world@.width,
        s.row_looks(y as int)[x as int] == s.look(Position { x, y }),
{
}

/// The status panel shows the tick and how many robots there are, of the base
/// the energy as energy and the crystals as crystals, and what is left; it turns
/// green exactly when nothing is left.
pub proof fn law_status_shows_the_books(s: AppSnapshot<'_>)
    ensures
        s.robot_segments()[1].text == Text::Column(s.tick),
        s.robot_segments()[3].text == Text::Count(s.num_scouts, "Scouts"),
        s.robot_segments()[5].text == Text::Count(s.num_collectors, "Collectors"),
        s.inventory_segments()[0].text == Text::Icon(s.visual_theme@.energy_char),
        s.inventory_segments()[1].text == Text::Words("Energy "),
        s.inventory_segments()[2].text == Text::Column(s.cached_energy),
        s.inventory_segments()[4].text == Text::Icon(s.visual_theme@.crystal_char),
        s.inventory_segments()[5].text == Text::Words("Crystals "),
        s.inventory_segments()[6].text == Text::Column(s.cached_crystals),
        s.inventory_segments()[8].text == Text::Words("Left "),
        s.inventory_segments()[9].text == Text::Number(s.cached_remaining),
        s.inventory_segments()[9].color == Some(Color::LightGreen) <==> s.cached_remaining == 0,
        s.title_segment().color == Some(Color::LightGreen) <==> s.cached_remaining == 0,
        s.cached_remaining == 0 ==> s.title_segment().text == Text::Words(" ✓ Mission complete "),
        s.cached_remaining > 0 ==> s.title_segment().text == Text::Words(" Resource Collection "),
{
}

/// The more of a whole there is, the higher the percentage.
pub proof fn law_percent_grows_with_the_part(less: int, more: int, whole: int)
    requires
        0 <= less <= more <= whole,
        0 < whole,
    ensures
        rounded_percent(less, whole) <= rounded_percent(more, whole),
{
    lemma_div_is_ordered(200 * less + whole, 200 * more + whole, 2 * whole);
}

/// Colors are made of red, green and blue: a color given by its parts has these
/// parts, the plain colors mix the three full ones, and grays have equal parts.
/// The light colors have most of what the plain color has most of.
pub proof fn law_colors_mix(r: u8, g: u8, b: u8, i: u8)
    ensures
        rgb_of(Color::Rgb(r, g, b)) == (r, g, b),
        rgb_of(Color::Black) == (0u8, 0u8, 0u8),
        rgb_of(Color::White).0 == rgb_of(Color::Red).0 == rgb_of(Color::Yellow).0 == rgb_of(Color::Magenta).0 == 255,
        rgb_of(Color::White).1 == rgb_of(Color::Green).1 == rgb_of(Color::Yellow).1 == rgb_of(Color::Cyan).1 == 255,
        rgb_of(Color::White).2 == rgb_of(Color::Blue).2 == rgb_of(Color::Magenta).2 == rgb_of(Color::Cyan).2 == 255,
        rgb_of(Color::Green).0 == rgb_of(Color::Blue).0 == rgb_of(Color::Cyan).0 == 0,
        rgb_of(Color::Red).1 == rgb_of(Color::Blue).1 == rgb_of(Color::Magenta).1 == 0,
        rgb_of(Color::Red).2 == rgb_of(Color::Green).2 == rgb_of(Color::Yellow).2 == 0,
        rgb_of(Color::Gray) == rgb_of(Color::Reset) && rgb_of(Color::Gray) == rgb_of(Color::Indexed(i)),
        rgb_of(Color::Gray).0 == rgb_of(Color::Gray).1 == rgb_of(Color::Gray).2 == 2 * rgb_of(Color::DarkGray).0,
        rgb_of(Color::DarkGray).0 == rgb_of(Color::DarkGray).1 == rgb_of(Color::DarkGray).2,
        rgb_of(Color::LightRed).0 > rgb_of(Color::LightRed).1 >= rgb_of(Color::LightRed).2 > 200,
        rgb_of(Color::LightGreen).1 > rgb_of(Color::LightGreen).0 == rgb_of(Color::LightGreen).2,
        rgb_of(Color::LightBlue).2 > rgb_of(Color::LightBlue).1 > rgb_of(Color::LightBlue).0,
        rgb_of(Color::LightYellow).0 == rgb_of(Color::LightYellow).1 > rgb_of(Color::LightYellow).2 == 224,
        rgb_of(Color::LightMagenta).0 == rgb_of(Color::LightMagenta).2 > rgb_of(Color::LightMagenta).1 == 224,
        rgb_of(Color::LightCyan).1 == rgb_of(Color::LightCyan).2 > rgb_of(Color::LightCyan).0 == 224,
{
}

} // verus!
