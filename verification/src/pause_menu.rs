//! The pause menu's decisions: what the Escape key and the menu's buttons
//! change in the menu and game states, and how a pending key capture ends.
//! Drawing the screens and reading the input is the user interface's part.
use crate::keybinds::{BindAction, KeyBindings};
use crate::state::{flipped, GameState, PauseState};
use bevy::input::keyboard::KeyCode;
use vstd::prelude::*;

verus! {

/// Which pause-menu screen is showing. It only has a meaning while the
/// game is paused, and is back at `Root` each time the menu opens.
#[derive(Clone, Copy, Debug, PartialEq, Eq, Hash, Structural)]
pub enum PauseMenuScreen {
    Root,
    Keybinds,
}

impl Default for PauseMenuScreen {
    /// The menu opens on its root screen.
    fn default() -> (r: Self)
        ensures
            r == PauseMenuScreen::Root,
    {
        PauseMenuScreen::Root
    }
}

/// The buttons of the pause menu's root screen.
#[derive(Clone, Copy, Debug, PartialEq, Eq, Structural)]
pub enum PauseButton {
    Resume,
    Settings,
    QuitToMainMenu,
}

/// The buttons of the keybinds screen: one per rebindable action, and Back.
#[derive(Clone, Copy, Debug, PartialEq, Eq, Structural)]
pub enum KeybindsButton {
    Rebind(BindAction),
    Back,
}

/// What a frame's Escape presses change, besides cancelling a pending key
/// capture.
#[derive(Clone, Copy, Debug, PartialEq, Eq, Structural)]
pub enum EscapeOutcome {
    /// No state changes.
    Stay,
    /// The pause menu switches to this screen.
    ShowScreen(PauseMenuScreen),
    /// The game pauses or resumes.
    SetPause(PauseState),
}

/// Escape is context-sensitive. With no press this frame nothing happens.
/// Otherwise a pending key capture is cancelled, and that is all; with none
/// pending, the keybinds screen backs out to the menu's root, and from the
/// root (or with no menu showing) the game pauses or resumes.
pub fn handle_escape(
    presses: usize,
    rebinding: &mut Option<BindAction>,
    screen: Option<PauseMenuScreen>,
    pause: PauseState,
) -> (r: EscapeOutcome)
    ensures
        presses == 0 ==> r == EscapeOutcome::Stay && *final(rebinding) == *old(rebinding),
        presses > 0 ==> *final(rebinding) == None::<BindAction>,
        presses > 0 && (*old(rebinding)) is Some ==> r == EscapeOutcome::Stay,
        presses > 0 && (*old(rebinding)) is None ==> r == match screen {
            Some(PauseMenuScreen::Keybinds) => EscapeOutcome::ShowScreen(PauseMenuScreen::Root),
            _ => EscapeOutcome::SetPause(flipped(pause)),
        },
{
    if presses == 0 {
        return EscapeOutcome::Stay;
    }
    if rebinding.take().is_some() {
        return EscapeOutcome::Stay;
    }
    match screen {
        Some(PauseMenuScreen::Keybinds) => EscapeOutcome::ShowScreen(PauseMenuScreen::Root),
        _ => EscapeOutcome::SetPause(
            match pause {
                PauseState::Running => PauseState::Paused,
                PauseState::Paused => PauseState::Running,
            },
        ),
    }
}

/// Pressing Escape twice from the root screen, with no key capture
/// pending, pauses and then resumes (or resumes and then pauses): the game
/// ends up as it was.
pub proof fn lemma_escape_twice_restores(pause: PauseState)
    ensures
        flipped(flipped(pause)) == pause,
{
}

/// The state changes that a frame's pause-menu button presses ask for.
#[derive(Clone, Copy, Debug, PartialEq, Eq, Structural)]
pub struct PauseTransitions {
    pub screen: Option<PauseMenuScreen>,
    pub pause: Option<PauseState>,
    pub game: Option<GameState>,
}

/// The pause menu's buttons, pressed in this order in one frame: Resume
/// resumes the game, Settings opens the keybinds screen, and Quit returns
/// to the main menu. Each state is asked to change exactly when one of its
/// buttons was pressed.
pub fn pause_button_actions(pressed: &Vec<PauseButton>) -> (r: PauseTransitions)
    ensures
        r.screen == if pressed@.contains(PauseButton::Settings) {
            Some(PauseMenuScreen::Keybinds)
        } else {
            None
        },
        r.pause == if pressed@.contains(PauseButton::Resume) {
            Some(PauseState::Running)
        } else {
            None
        },
        r.game == if pressed@.contains(PauseButton::QuitToMainMenu) {
            Some(GameState::MainMenu)
        } else {
            None
        },
{
    let mut r = PauseTransitions { screen: None, pause: None, game: None };
    let mut i: usize = 0;
    while i < pressed.len()
        invariant
            i <= pressed@.len(),
            r.screen == if pressed@.take(i as int).contains(PauseButton::Settings) {
                Some(PauseMenuScreen::Keybinds)
            } else {
                None
            },
            r.pause == if pressed@.take(i as int).contains(PauseButton::Resume) {
                Some(PauseState::Running)
            } else {
                None
            },
            r.game == if pressed@.take(i as int).contains(PauseButton::QuitToMainMenu) {
                Some(GameState::MainMenu)
            } else {
                None
            },
        decreases pressed@.len() - i,
    {
        let ghost before = pressed@.take(i as int);
        let ghost after = pressed@.take(i + 1);
        proof {
            assert(after =~= before.push(pressed@[i as int]));
            lemma_push_contains(before, pressed@[i as int], PauseButton::Settings);
            lemma_push_contains(before, pressed@[i as int], PauseButton::Resume);
            lemma_push_contains(before, pressed@[i as int], PauseButton::QuitToMainMenu);
        }
        match pressed[i] {
            PauseButton::Resume => r.pause = Some(PauseState::Running),
            PauseButton::Settings => r.screen = Some(PauseMenuScreen::Keybinds),
            PauseButton::QuitToMainMenu => r.game = Some(GameState::MainMenu),
        }
        i = i + 1;
    }
    proof {
        assert(pressed@.take(pressed@.len() as int) =~= pressed@);
    }
    r
}

/// `s` with `x` pushed contains `v` exactly when `s` did or `x` is `v`.
proof fn lemma_push_contains<T>(s: Seq<T>, x: T, v: T)
    ensures
        s.push(x).contains(v) <==> (s.contains(v) || x == v),
{
    if s.contains(v) {
        let k = choose|k: int| 0 <= k < s.len() && s[k] == v;
        assert(s.push(x)[k] == v);
    }
    if x == v {
        assert(s.push(x)[s.len() as int] == v);
    }
    if s.push(x).contains(v) {
        let k = choose|k: int| 0 <= k < s.len() + 1 && s.push(x)[k] == v;
        if k < s.len() {
            assert(s[k] == v);
        }
    }
}

/// The action of the last Rebind button among the first `n` presses.
pub open spec fn last_rebind(pressed: Seq<KeybindsButton>, n: int) -> Option<BindAction>
    decreases n,
{
    if n <= 0 {
        None
    } else {
        match pressed[n - 1] {
            KeybindsButton::Rebind(a) => Some(a),
            KeybindsButton::Back => last_rebind(pressed, n - 1),
        }
    }
}

/// The keybinds screen's buttons, pressed in this order in one frame: a
/// Rebind button starts waiting for a key for its action (the last one
/// pressed wins; with none pressed, a capture already pending stays), and
/// Back returns to the menu's root, which is the screen change returned.
pub fn keybinds_button_actions(pressed: &Vec<KeybindsButton>, rebinding: &mut Option<BindAction>) -> (r:
    Option<PauseMenuScreen>)
    ensures
        r == if pressed@.contains(KeybindsButton::Back) {
            Some(PauseMenuScreen::Root)
        } else {
            None
        },
        *final(rebinding) == match last_rebind(pressed@, pressed@.len() as int) {
            Some(a) => Some(a),
            None => *old(rebinding),
        },
{
    let mut r: Option<PauseMenuScreen> = None;
    let mut i: usize = 0;
    while i < pressed.len()
        invariant
            i <= pressed@.len(),
            r == if pressed@.take(i as int).contains(KeybindsButton::Back) {
                Some(PauseMenuScreen::Root)
            } else {
                None
            },
            *rebinding == match last_rebind(pressed@, i as int) {
                Some(a) => Some(a),
                None => *old(rebinding),
            },
        decreases pressed@.len() - i,
    {
        proof {
            let before = pressed@.take(i as int);
            assert(pressed@.take(i + 1) =~= before.push(pressed@[i as int]));
            lemma_push_contains(before, pressed@[i as int], KeybindsButton::Back);
        }
        match pressed[i] {
            KeybindsButton::Rebind(action) => *rebinding = Some(action),
            KeybindsButton::Back => r = Some(PauseMenuScreen::Root),
        }
        i = i + 1;
    }
    proof {
        assert(pressed@.take(pressed@.len() as int) =~= pressed@);
    }
    r
}

/// Ends a pending key capture with `key`, the first key pressed this frame
/// other than Escape (Escape cancels a capture instead; see
/// `handle_escape`). With a capture pending and a key pressed, the action
/// is bound to the key, the capture ends, and `true` says the settings
/// changed and should be saved; otherwise nothing changes.
pub fn capture_rebind(
    rebinding: &mut Option<BindAction>,
    binds: &mut KeyBindings,
    key: Option<KeyCode>,
) -> (saved: bool)
    ensures
        saved == ((*old(rebinding)) is Some && key is Some),
        saved ==> *final(rebinding) == None::<BindAction> && forall|a: BindAction|
            #[trigger] a.key_in(*final(binds)) == if a == (*old(rebinding))->0 {
                key->0
            } else {
                a.key_in(*old(binds))
            },
        !saved ==> *final(rebinding) == *old(rebinding) && *final(binds) == *old(binds),
{
    let action = match *rebinding {
        Some(action) => action,
        None => return false,
    };
    let key = match key {
        Some(key) => key,
        None => return false,
    };
    action.set(binds, key);
    *rebinding = None;
    true
}

} // verus!
