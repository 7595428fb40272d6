//! The integer settings of the world-generator screen and how its steppers
//! move them.
use vstd::prelude::*;

verus! {

/// Continent-count stepper range.
pub const CONTINENTS_MIN: u32 = 1;

pub const CONTINENTS_MAX: u32 = 60;

/// Nation-count stepper range.
pub const NATIONS_MIN: u32 = 1;

pub const NATIONS_MAX: u32 = 32;

/// Resolution stepper range (map width in cells; height is always half)
/// and step.
pub const RESOLUTION_MIN: u32 = 128;

pub const RESOLUTION_MAX: u32 = 2048;

pub const RESOLUTION_STEP: u32 = 128;

/// Which rendering of the generated world the preview shows.
#[derive(Clone, Copy, Debug, PartialEq, Eq, Structural)]
pub enum PreviewView {
    Biome,
    Elevation,
}

impl PreviewView {
    pub fn label(self) -> (r: &'static str)
        ensures
            r@ == match self {
                PreviewView::Biome => "Biome"@,
                PreviewView::Elevation => "Elevation"@,
            },
    {
        match self {
            PreviewView::Biome => "Biome",
            PreviewView::Elevation => "Elevation",
        }
    }

    pub fn toggled(self) -> (r: Self)
        ensures
            r != self,
            r.toggled_spec() == self,
    {
        match self {
            PreviewView::Biome => PreviewView::Elevation,
            PreviewView::Elevation => PreviewView::Biome,
        }
    }

    pub open spec fn toggled_spec(self) -> Self {
        match self {
            PreviewView::Biome => PreviewView::Elevation,
            PreviewView::Elevation => PreviewView::Biome,
        }
    }
}

/// Map dimensions for a resolution: the width, and half of it as height.
pub fn dimensions(resolution: u32) -> (r: (usize, usize))
    ensures
        r.0 == resolution,
        r.1 == resolution / 2,
{
    (resolution as usize, (resolution / 2) as usize)
}

/// The previous preset, wrapping from the first to the last.
pub fn preset_prev(index: usize, count: usize) -> (r: usize)
    requires
        index < count,
        index + count <= usize::MAX,
    ensures
        r == (index + count - 1) % (count as int),
        r < count,
{
    (index + count - 1) % count
}

/// The next preset, wrapping from the last to the first.
pub fn preset_next(index: usize, count: usize) -> (r: usize)
    requires
        index < count,
    ensures
        r == (index + 1) % (count as int),
        r < count,
{
    (index + 1) % count
}

/// One stepper click on a bounded integer setting: up by `step` capped at
/// `max`, or down by `step` (saturating at zero) floored at `min`.
pub open spec fn stepped(value: int, up: bool, step: int, min: int, max: int) -> int {
    if up {
        if value + step <= max {
            value + step
        } else {
            max
        }
    } else {
        let lowered = if value >= step {
            value - step
        } else {
            0
        };
        if lowered >= min {
            lowered
        } else {
            min
        }
    }
}

/// The resolution stepper.
pub fn step_resolution(resolution: u32, up: bool) -> (r: u32)
    requires
        up ==> resolution <= u32::MAX - RESOLUTION_STEP,
    ensures
        r == stepped(resolution as int, up, 128, 128, 2048),
{
    if up {
        let raised = resolution + RESOLUTION_STEP;
        if raised <= RESOLUTION_MAX {
            raised
        } else {
            RESOLUTION_MAX
        }
    } else {
        let lowered = resolution.saturating_sub(RESOLUTION_STEP);
        if lowered >= RESOLUTION_MIN {
            lowered
        } else {
            RESOLUTION_MIN
        }
    }
}

/// The continent-count stepper.
pub fn step_continents(count: u32, up: bool) -> (r: u32)
    requires
        up ==> count < u32::MAX,
    ensures
        r == stepped(count as int, up, 1, 1, 60),
{
    if up {
        let raised = count + 1;
        if raised <= CONTINENTS_MAX {
            raised
        } else {
            CONTINENTS_MAX
        }
    } else {
        let lowered = count.saturating_sub(1);
        if lowered >= CONTINENTS_MIN {
            lowered
        } else {
            CONTINENTS_MIN
        }
    }
}

/// The nation-count stepper.
pub fn step_nations(count: u32, up: bool) -> (r: u32)
    requires
        up ==> count < u32::MAX,
    ensures
        r == stepped(count as int, up, 1, 1, 32),
{
    if up {
        let raised = count + 1;
        if raised <= NATIONS_MAX {
            raised
        } else {
            NATIONS_MAX
        }
    } else {
        let lowered = count.saturating_sub(1);
        if lowered >= NATIONS_MIN {
            lowered
        } else {
            NATIONS_MIN
        }
    }
}

/// A stepper never leaves its range once inside it, and one click moves a
/// value inside the range by at most one step.
pub proof fn lemma_stepped_stays_in_range(value: int, up: bool, step: int, min: int, max: int)
    requires
        0 <= step,
        0 <= min <= value <= max,
    ensures
        min <= stepped(value, up, step, min, max) <= max,
        up ==> value <= stepped(value, up, step, min, max) <= value + step,
        !up ==> value - step <= stepped(value, up, step, min, max) <= value,
{
}

/// The seed steppers: one down or up, wrapping around `u64`.
pub fn step_seed(seed: u64, up: bool) -> (r: u64)
    ensures
        up ==> r as int == (seed as int + 1) % 0x1_0000_0000_0000_0000int,
        !up ==> r as int == (seed as int - 1) % 0x1_0000_0000_0000_0000int,
{
    if up {
        seed.wrapping_add(1)
    } else {
        seed.wrapping_sub(1)
    }
}

/// "Randomize Seed": one fixed-increment LCG step, enough to get a
/// different-looking seed on each click.
pub fn randomize_seed(seed: u64) -> (r: u64)
    ensures
        r as int == (seed as int * 6364136223846793005 + 1442695040888963407)
            % 0x1_0000_0000_0000_0000int,
{
    let r = seed.wrapping_mul(6364136223846793005).wrapping_add(1442695040888963407);
    proof {
        let m = 0x1_0000_0000_0000_0000int;
        let a = (seed as int * 6364136223846793005) % m;
        vstd::arithmetic::div_mod::lemma_add_mod_noop(
            seed as int * 6364136223846793005,
            1442695040888963407,
            m,
        );
        vstd::arithmetic::div_mod::lemma_small_mod(1442695040888963407nat, m as nat);
    }
    r
}

/// The integer settings of the world-generation screen.
#[derive(Clone, Copy, Debug, PartialEq, Eq, Structural)]
pub struct MenuInts {
    pub preset_index: usize,
    pub resolution: u32,
    pub continent_count: u32,
    pub nation_count: u32,
    pub seed: u64,
    pub view: PreviewView,
    pub highlight: bool,
    pub correct_continents: bool,
}

/// The world-generation screen's buttons that act on its integer settings,
/// and Back.
#[derive(Clone, Copy, Debug, PartialEq, Eq, Structural)]
pub enum MenuButton {
    ToggleView,
    ToggleHighlight,
    ToggleCorrectContinents,
    PresetPrev,
    PresetNext,
    ResolutionDec,
    ResolutionInc,
    ContinentsDec,
    ContinentsInc,
    NationsDec,
    NationsInc,
    SeedDec,
    SeedInc,
    RandomizeSeed,
    Back,
}

/// What follows a button press besides the settings change.
#[derive(Clone, Copy, Debug, PartialEq, Eq, Structural)]
pub enum MenuAction {
    /// A setting changed: the preview is generated again.
    Regenerate,
    /// The preset changed: its defaults are applied, then the preview is
    /// generated again.
    ApplyPreset,
    /// Back to the solo-mode screen.
    Leave,
}

/// Every integer setting inside its stepper's range, and the preset one of
/// `preset_count`.
pub open spec fn menu_in_range(s: MenuInts, preset_count: int) -> bool {
    &&& s.preset_index < preset_count
    &&& RESOLUTION_MIN <= s.resolution <= RESOLUTION_MAX
    &&& CONTINENTS_MIN <= s.continent_count <= CONTINENTS_MAX
    &&& NATIONS_MIN <= s.nation_count <= NATIONS_MAX
}

/// One button press on the world-generation screen: the settings after it
/// and what follows. Each stepper moves its own setting only; a press
/// inside the ranges keeps every setting inside them.
pub fn apply_button(s: MenuInts, preset_count: usize, button: MenuButton) -> (r: (MenuInts, MenuAction))
    requires
        s.preset_index < preset_count,
        s.preset_index + preset_count <= usize::MAX,
        button == MenuButton::ResolutionInc ==> s.resolution <= u32::MAX - RESOLUTION_STEP,
        button == MenuButton::ContinentsInc ==> s.continent_count < u32::MAX,
        button == MenuButton::NationsInc ==> s.nation_count < u32::MAX,
    ensures
        r.1 == match button {
            MenuButton::Back => MenuAction::Leave,
            MenuButton::PresetPrev | MenuButton::PresetNext => MenuAction::ApplyPreset,
            _ => MenuAction::Regenerate,
        },
        r.0 == match button {
            MenuButton::ToggleView => MenuInts {
                view: match s.view {
                    PreviewView::Biome => PreviewView::Elevation,
                    PreviewView::Elevation => PreviewView::Biome,
                },
                ..s
            },
            MenuButton::ToggleHighlight => MenuInts { highlight: !s.highlight, ..s },
            MenuButton::ToggleCorrectContinents => MenuInts {
                correct_continents: !s.correct_continents,
                ..s
            },
            MenuButton::PresetPrev => MenuInts {
                preset_index: ((s.preset_index + preset_count - 1) % (preset_count as int)) as usize,
                ..s
            },
            MenuButton::PresetNext => MenuInts {
                preset_index: ((s.preset_index + 1) % (preset_count as int)) as usize,
                ..s
            },
            MenuButton::ResolutionDec => MenuInts {
                resolution: stepped(s.resolution as int, false, 128, 128, 2048) as u32,
                ..s
            },
            MenuButton::ResolutionInc => MenuInts {
                resolution: stepped(s.resolution as int, true, 128, 128, 2048) as u32,
                ..s
            },
            MenuButton::ContinentsDec => MenuInts {
                continent_count: stepped(s.continent_count as int, false, 1, 1, 60) as u32,
                ..s
            },
            MenuButton::ContinentsInc => MenuInts {
                continent_count: stepped(s.continent_count as int, true, 1, 1, 60) as u32,
                ..s
            },
            MenuButton::NationsDec => MenuInts {
                nation_count: stepped(s.nation_count as int, false, 1, 1, 32) as u32,
                ..s
            },
            MenuButton::NationsInc => MenuInts {
                nation_count: stepped(s.nation_count as int, true, 1, 1, 32) as u32,
                ..s
            },
            MenuButton::SeedDec => MenuInts {
                seed: ((s.seed as int - 1) % 0x1_0000_0000_0000_0000int) as u64,
                ..s
            },
            MenuButton::SeedInc => MenuInts {
                seed: ((s.seed as int + 1) % 0x1_0000_0000_0000_0000int) as u64,
                ..s
            },
            MenuButton::RandomizeSeed => MenuInts {
                seed: ((s.seed as int * 6364136223846793005 + 1442695040888963407)
                    % 0x1_0000_0000_0000_0000int) as u64,
                ..s
            },
            MenuButton::Back => s,
        },
        menu_in_range(s, preset_count as int) ==> menu_in_range(r.0, preset_count as int),
{
    let mut t = s;
    let action = match button {
        MenuButton::ToggleView => {
            t.view = s.view.toggled();
            MenuAction::Regenerate
        },
        MenuButton::ToggleHighlight => {
            t.highlight = !s.highlight;
            MenuAction::Regenerate
        },
        MenuButton::ToggleCorrectContinents => {
            t.correct_continents = !s.correct_continents;
            MenuAction::Regenerate
        },
        MenuButton::PresetPrev => {
            t.preset_index = preset_prev(s.preset_index, preset_count);
            MenuAction::ApplyPreset
        },
        MenuButton::PresetNext => {
            t.preset_index = preset_next(s.preset_index, preset_count);
            MenuAction::ApplyPreset
        },
        MenuButton::ResolutionDec => {
            t.resolution = step_resolution(s.resolution, false);
            MenuAction::Regenerate
        },
        MenuButton::ResolutionInc => {
            t.resolution = step_resolution(s.resolution, true);
            MenuAction::Regenerate
        },
        MenuButton::ContinentsDec => {
            t.continent_count = step_continents(s.continent_count, false);
            MenuAction::Regenerate
        },
        MenuButton::ContinentsInc => {
            t.continent_count = step_continents(s.continent_count, true);
            MenuAction::Regenerate
        },
        MenuButton::NationsDec => {
            t.nation_count = step_nations(s.nation_count, false);
            MenuAction::Regenerate
        },
        MenuButton::NationsInc => {
            t.nation_count = step_nations(s.nation_count, true);
            MenuAction::Regenerate
        },
        MenuButton::SeedDec => {
            t.seed = step_seed(s.seed, false);
            MenuAction::Regenerate
        },
        MenuButton::SeedInc => {
            t.seed = step_seed(s.seed, true);
            MenuAction::Regenerate
        },
        MenuButton::RandomizeSeed => {
            t.seed = randomize_seed(s.seed);
            MenuAction::Regenerate
        },
        MenuButton::Back => MenuAction::Leave,
    };
    proof {
        if menu_in_range(s, preset_count as int) {
            lemma_stepped_stays_in_range(s.resolution as int, true, 128, 128, 2048);
            lemma_stepped_stays_in_range(s.resolution as int, false, 128, 128, 2048);
        }
    }
    (t, action)
}

/// The character of decimal digit `d`.
pub open spec fn digit_char(d: nat) -> char {
    if d == 0 {
        '0'
    } else if d == 1 {
        '1'
    } else if d == 2 {
        '2'
    } else if d == 3 {
        '3'
    } else if d == 4 {
        '4'
    } else if d == 5 {
        '5'
    } else if d == 6 {
        '6'
    } else if d == 7 {
        '7'
    } else if d == 8 {
        '8'
    } else {
        '9'
    }
}

/// The decimal digits of `n`, most significant first, with no leading
/// zeros (`0` is written "0").
pub open spec fn decimal(n: nat) -> Seq<char>
    decreases n,
{
    if n < 10 {
        seq![digit_char(n)]
    } else {
        decimal(n / 10).push(digit_char(n % 10))
    }
}

/// The one-character string of decimal digit `d`.
fn digit_str(d: u64) -> (r: &'static str)
    requires
        d < 10,
    ensures
        r@ == seq![digit_char(d as nat)],
{
    proof {
        reveal_strlit("0");
        reveal_strlit("1");
        reveal_strlit("2");
        reveal_strlit("3");
        reveal_strlit("4");
        reveal_strlit("5");
        reveal_strlit("6");
        reveal_strlit("7");
        reveal_strlit("8");
        reveal_strlit("9");
    }
    if d == 0 {
        "0"
    } else if d == 1 {
        "1"
    } else if d == 2 {
        "2"
    } else if d == 3 {
        "3"
    } else if d == 4 {
        "4"
    } else if d == 5 {
        "5"
    } else if d == 6 {
        "6"
    } else if d == 7 {
        "7"
    } else if d == 8 {
        "8"
    } else {
        "9"
    }
}

/// Appends the decimal digits of `n` to `s`.
fn push_decimal(s: &mut String, n: u64)
    ensures
        final(s)@ == old(s)@ + decimal(n as nat),
    decreases n,
{
    if n >= 10 {
        push_decimal(s, n / 10);
    }
    s.append(digit_str(n % 10));
    proof {
        if n >= 10 {
            assert(old(s)@ + decimal((n / 10) as nat) + seq![digit_char((n % 10) as nat)] =~= old(s)@
                + decimal(n as nat));
        } else {
            assert(Seq::<char>::empty() + seq![digit_char(n as nat)] =~= decimal(n as nat));
        }
    }
}

/// A count or seed as the screen shows it: its decimal digits.
pub fn number_text(n: u64) -> (r: String)
    ensures
        r@ == decimal(n as nat),
{
    let mut s = String::new();
    push_decimal(&mut s, n);
    proof {
        assert(Seq::<char>::empty() + decimal(n as nat) =~= decimal(n as nat));
    }
    s
}

/// An on/off setting as the screen shows it.
pub fn on_off_text(on: bool) -> (r: String)
    ensures
        r@ == if on {
            "On"@
        } else {
            "Off"@
        },
{
    if on {
        String::from_str("On")
    } else {
        String::from_str("Off")
    }
}

/// The resolution as the screen shows it: the map's width and height, as
/// "`width`x`height`".
pub fn resolution_text(resolution: u32) -> (r: String)
    ensures
        r@ == decimal(resolution as nat) + "x"@ + decimal((resolution / 2) as nat),
{
    let (width, height) = dimensions(resolution);
    let mut s = String::new();
    push_decimal(&mut s, width as u64);
    s.append("x");
    push_decimal(&mut s, height as u64);
    proof {
        assert(Seq::<char>::empty() + decimal(resolution as nat) =~= decimal(resolution as nat));
    }
    s
}

/// The continent setting as the screen shows it: the target count and,
/// after "~", the count the last generated world actually has, as
/// "`target` (~`actual`)".
pub fn continents_text(target: u32, actual: u64) -> (r: String)
    ensures
        r@ == decimal(target as nat) + " (~"@ + decimal(actual as nat) + ")"@,
{
    let mut s = String::new();
    push_decimal(&mut s, target as u64);
    s.append(" (~");
    push_decimal(&mut s, actual);
    s.append(")");
    proof {
        assert(Seq::<char>::empty() + decimal(target as nat) =~= decimal(target as nat));
    }
    s
}

} // verus!
