//! The command line: `[preset] [visual-theme] [seed|reveal|nofog] [reveal|nofog]`.

use crate::map::{is, lowercase, to_lowercase, MapPreset, ThemeView, VisualTheme};
use crate::simulation::RevealMode;
use std::str::FromStr;
use vstd::prelude::*;

verus! {

/// What the command line asks for.
#[derive(Debug, Clone)]
pub struct Options {
    pub preset: MapPreset,
    pub theme: VisualTheme,
    /// The seed of the map; a random one where there is none.
    pub seed: Option<u64>,
    pub reveal_mode: RevealMode,
}

/// The number that decimal digits denote.
pub open spec fn number(digits: Seq<char>) -> nat
    decreases digits.len(),
{
    if digits.len() == 0 {
        0
    } else {
        number(digits.drop_last()) * 10 + (digits.last() as nat - '0' as nat) as nat
    }
}

/// The 64-bit number that a text denotes: an optional plus sign, then decimal
/// digits only, at least one.
pub open spec fn decimal(text: Seq<char>) -> Option<u64> {
    let digits = if text.len() > 0 && text[0] == '+' {
        text.skip(1)
    } else {
        text
    };
    if digits.len() > 0 && (forall|i: int| 0 <= i < digits.len() ==> '0' <= #[trigger] digits[i] <= '9') && number(digits)
        <= u64::MAX {
        Some(number(digits) as u64)
    } else {
        None
    }
}

/// `str::parse::<u64>`: accepts an optional plus sign followed by decimal
/// digits only, and refuses a number that does not fit.
#[verifier::external_body]
fn parse_u64(text: &str) -> (value: Option<u64>)
    ensures
        value == decimal(text@),
{
    text.parse::<u64>().ok()
}

/// The reveal mode that a lower-case word names.
pub open spec fn mode_named(word: Seq<char>) -> Option<RevealMode> {
    if word == "reveal"@ {
        Some(RevealMode::Full)
    } else if word == "nofog"@ {
        Some(RevealMode::NoFog)
    } else {
        None
    }
}

/// The reveal mode that a lower-case word names, if it names one.
pub fn mode_from_word(word: &String) -> (mode: Option<RevealMode>)
    ensures
        mode == mode_named(word@),
{
    if is(word, "reveal") {
        Some(RevealMode::Full)
    } else if is(word, "nofog") {
        Some(RevealMode::NoFog)
    } else {
        None
    }
}

/// The preset asked for: the first argument's, or the default where it names
/// none.
pub open spec fn preset_asked(args: Seq<String>) -> MapPreset {
    if args.len() > 0 && MapPreset::named(lowercase(args[0]@)) is Some {
        MapPreset::named(lowercase(args[0]@))->0
    } else {
        MapPreset::Default
    }
}

/// The theme asked for: the second argument's, or the default where it names
/// none.
pub open spec fn theme_asked(args: Seq<String>) -> ThemeView {
    if args.len() > 1 && ThemeView::named(lowercase(args[1]@)) is Some {
        ThemeView::named(lowercase(args[1]@))->0
    } else {
        ThemeView::standard_look()
    }
}

/// The seed asked for, if the third argument is a number.
pub open spec fn seed_asked(args: Seq<String>) -> Option<u64> {
    if args.len() > 2 {
        decimal(args[2]@)
    } else {
        None
    }
}

/// The reveal mode asked for: the fourth argument's, else the third's, else
/// normal fog.
pub open spec fn reveal_asked(args: Seq<String>) -> RevealMode {
    if args.len() > 3 && mode_named(lowercase(args[3]@)) is Some {
        mode_named(lowercase(args[3]@))->0
    } else if args.len() > 2 && mode_named(lowercase(args[2]@)) is Some {
        mode_named(lowercase(args[2]@))->0
    } else {
        RevealMode::Normal
    }
}

/// Reads the arguments that follow the program's name. An argument that is
/// missing or makes no sense leaves the default.
pub fn parse_args(args: &Vec<String>) -> (options: Options)
    ensures
        options.preset == preset_asked(args@),
        options.theme@ == theme_asked(args@),
        options.seed == seed_asked(args@),
        options.reveal_mode == reveal_asked(args@),
{
    let mut preset: MapPreset = MapPreset::Default;
    if args.len() > 0 {
        if let Ok(named) = MapPreset::from_str(args[0].as_str()) {
            preset = named;
        }
    }
    let mut theme: VisualTheme = VisualTheme::standard();
    if args.len() > 1 {
        if let Ok(named) = VisualTheme::from_str(args[1].as_str()) {
            theme = named;
        }
    }
    let mut seed: Option<u64> = None;
    let mut shown: RevealMode = RevealMode::Normal;
    if args.len() > 2 {
        seed = parse_u64(args[2].as_str());
        if let Some(mode) = mode_from_word(&to_lowercase(args[2].as_str())) {
            shown = mode;
        }
    }
    if args.len() > 3 {
        if let Some(mode) = mode_from_word(&to_lowercase(args[3].as_str())) {
            shown = mode;
        }
    }
    Options { preset, theme, seed, reveal_mode: shown }
}

/// Digits denote numbers in base ten: a digit at the end adds itself to ten times
/// the number before, and no digits denote nothing.
pub proof fn law_digits_count_in_tens(digits: Seq<char>, digit: char)
    requires
        '0' <= digit <= '9',
    ensures
        number(Seq::<char>::empty()) == 0,
        number(digits.push(digit)) == 10 * number(digits) + (digit as int - '0' as int),
{
    assert(digits.push(digit).drop_last() =~= digits);
}

/// Where the first argument names a preset, that is the one, whatever follows;
/// where it names none, or is missing, it is the default one.
pub proof fn law_first_argument_is_the_preset(args: Seq<String>, preset: MapPreset)
    ensures
        args.len() > 0 && MapPreset::named(lowercase(args[0]@)) == Some(preset) ==> preset_asked(args) == preset,
        args.len() == 0 || MapPreset::named(lowercase(args[0]@)) is None ==> preset_asked(args) == MapPreset::Default,
{
}

/// Where the second argument names a theme, that is the one; else it is the
/// default one.
pub proof fn law_second_argument_is_the_theme(args: Seq<String>, theme: ThemeView)
    ensures
        args.len() > 1 && ThemeView::named(lowercase(args[1]@)) == Some(theme) ==> theme_asked(args) == theme,
        args.len() <= 1 || ThemeView::named(lowercase(args[1]@)) is None ==> theme_asked(args)
            == ThemeView::standard_look(),
{
}

/// The third argument is a seed where it is a number. A reveal mode may stand
/// there or in the fourth place, and the fourth counts where both have one.
pub proof fn law_seed_and_mode_come_last(args: Seq<String>, mode: RevealMode)
    ensures
        args.len() <= 2 ==> seed_asked(args) is None && reveal_asked(args) == RevealMode::Normal,
        args.len() > 2 ==> seed_asked(args) == decimal(args[2]@),
        args.len() > 3 && mode_named(lowercase(args[3]@)) == Some(mode) ==> reveal_asked(args) == mode,
        args.len() > 2 && mode_named(lowercase(args[2]@)) == Some(mode) && (args.len() == 3 || mode_named(
            lowercase(args[3]@),
        ) is None) ==> reveal_asked(args) == mode,
        args.len() == 3 && mode_named(lowercase(args[2]@)) is None ==> reveal_asked(args) == RevealMode::Normal,
        args.len() > 3 && mode_named(lowercase(args[2]@)) is None && mode_named(lowercase(args[3]@)) is None
            ==> reveal_asked(args) == RevealMode::Normal,
{
}

/// Two words ask for more than normal fog shows: one for everything, one for the
/// terrain alone; no other word does.
pub proof fn law_two_words_name_modes(word: Seq<char>)
    ensures
        mode_named(word) == Some(RevealMode::Full) <==> word == "reveal"@,
        mode_named(word) == Some(RevealMode::NoFog) <==> word == "nofog"@,
        mode_named(word) != Some(RevealMode::Normal),
{
    reveal_strlit("reveal");
    reveal_strlit("nofog");
    assert("reveal"@.len() != "nofog"@.len());
}

} // verus!
