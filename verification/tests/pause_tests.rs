use bevy::input::keyboard::KeyCode;
use rts_game::keybinds::{BindAction, KeyBindings};
use rts_game::pause_menu::{
    capture_rebind, handle_escape, keybinds_button_actions, pause_button_actions, EscapeOutcome,
    KeybindsButton, PauseButton, PauseMenuScreen,
};
use rts_game::state::{GameState, PauseState};

fn arrows_free_binds() -> KeyBindings {
    KeyBindings {
        pan_north: KeyCode::KeyW,
        pan_south: KeyCode::KeyS,
        pan_west: KeyCode::KeyA,
        pan_east: KeyCode::KeyD,
        toggle_debug_overlay: KeyCode::F3,
    }
}

#[test]
fn flow_states_start_at_the_main_menu_and_running() {
    assert_eq!(GameState::default(), GameState::MainMenu);
    assert_eq!(PauseState::default(), PauseState::Running);
    assert_eq!(PauseMenuScreen::default(), PauseMenuScreen::Root);
}

#[test]
fn escape_pauses_then_resumes() {
    let mut rebinding = None;
    let first = handle_escape(1, &mut rebinding, None, PauseState::Running);
    assert_eq!(first, EscapeOutcome::SetPause(PauseState::Paused));
    let second = handle_escape(1, &mut rebinding, Some(PauseMenuScreen::Root), PauseState::Paused);
    assert_eq!(second, EscapeOutcome::SetPause(PauseState::Running));
}

#[test]
fn escape_backs_out_of_the_keybinds_screen() {
    let mut rebinding = None;
    let r = handle_escape(1, &mut rebinding, Some(PauseMenuScreen::Keybinds), PauseState::Paused);
    assert_eq!(r, EscapeOutcome::ShowScreen(PauseMenuScreen::Root));
}

#[test]
fn escape_cancels_a_pending_capture_and_nothing_else() {
    let mut rebinding = Some(BindAction::PanEast);
    let r = handle_escape(2, &mut rebinding, Some(PauseMenuScreen::Keybinds), PauseState::Paused);
    assert_eq!(r, EscapeOutcome::Stay);
    assert_eq!(rebinding, None);
}

#[test]
fn no_escape_press_changes_nothing() {
    let mut rebinding = Some(BindAction::PanWest);
    let r = handle_escape(0, &mut rebinding, Some(PauseMenuScreen::Root), PauseState::Paused);
    assert_eq!(r, EscapeOutcome::Stay);
    assert_eq!(rebinding, Some(BindAction::PanWest));
}

#[test]
fn pause_menu_buttons() {
    let none = pause_button_actions(&vec![]);
    assert_eq!((none.screen, none.pause, none.game), (None, None, None));
    let resume = pause_button_actions(&vec![PauseButton::Resume]);
    assert_eq!(resume.pause, Some(PauseState::Running));
    assert_eq!(resume.screen, None);
    let both = pause_button_actions(&vec![PauseButton::Settings, PauseButton::QuitToMainMenu]);
    assert_eq!(both.screen, Some(PauseMenuScreen::Keybinds));
    assert_eq!(both.game, Some(GameState::MainMenu));
    assert_eq!(both.pause, None);
}

#[test]
fn keybinds_buttons_last_rebind_wins() {
    let mut rebinding = Some(BindAction::PanNorth);
    let screen = keybinds_button_actions(
        &vec![KeybindsButton::Rebind(BindAction::PanSouth), KeybindsButton::Rebind(BindAction::PanEast)],
        &mut rebinding,
    );
    assert_eq!(screen, None);
    assert_eq!(rebinding, Some(BindAction::PanEast));
    let back = keybinds_button_actions(&vec![KeybindsButton::Back], &mut rebinding);
    assert_eq!(back, Some(PauseMenuScreen::Root));
    assert_eq!(rebinding, Some(BindAction::PanEast));
}

#[test]
fn a_captured_key_is_bound_and_the_capture_ends() {
    let mut binds = arrows_free_binds();
    let mut rebinding = Some(BindAction::PanSouth);
    assert!(capture_rebind(&mut rebinding, &mut binds, Some(KeyCode::KeyK)));
    assert_eq!(rebinding, None);
    assert_eq!(binds.pan_south, KeyCode::KeyK);
    assert_eq!(binds.pan_north, KeyCode::KeyW);
    assert!(!capture_rebind(&mut rebinding, &mut binds, Some(KeyCode::KeyL)));
    assert_eq!(binds.pan_south, KeyCode::KeyK);
    let mut waiting = Some(BindAction::PanWest);
    assert!(!capture_rebind(&mut waiting, &mut binds, None));
    assert_eq!(waiting, Some(BindAction::PanWest));
    assert_eq!(binds.pan_west, KeyCode::KeyA);
}
