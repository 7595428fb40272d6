use bevy::input::keyboard::KeyCode;
use rts_game::keybinds::{BindAction, KeyBindings};
use rts_game::players::{fallback_civilizations, Civilizations, Nation, PlayerSlot, PlayersSettings, MAX_AI_SLOTS};
use rts_game::worldgen_menu::{
    apply_button, continents_text, number_text, on_off_text, resolution_text, MenuAction,
    MenuButton, MenuInts, dimensions, preset_next, preset_prev, randomize_seed, step_continents, step_nations,
    step_resolution, step_seed, PreviewView,
};

fn wasd() -> KeyBindings {
    KeyBindings {
        pan_north: KeyCode::KeyW,
        pan_south: KeyCode::KeyS,
        pan_west: KeyCode::KeyA,
        pan_east: KeyCode::KeyD,
        toggle_debug_overlay: KeyCode::F3,
    }
}

#[test]
fn rebinding_changes_only_the_chosen_action() {
    let mut binds = wasd();
    BindAction::PanWest.set(&mut binds, KeyCode::KeyJ);
    assert_eq!(BindAction::PanWest.get(&binds), KeyCode::KeyJ);
    assert_eq!(BindAction::PanNorth.get(&binds), KeyCode::KeyW);
    assert_eq!(BindAction::PanSouth.get(&binds), KeyCode::KeyS);
    assert_eq!(BindAction::PanEast.get(&binds), KeyCode::KeyD);
    assert_eq!(BindAction::ToggleDebugOverlay.get(&binds), KeyCode::F3);
    BindAction::ToggleDebugOverlay.set(&mut binds, KeyCode::F5);
    assert_eq!(binds.toggle_debug_overlay, KeyCode::F5);
    assert_eq!(binds.pan_west, KeyCode::KeyJ);
}

#[test]
fn bind_action_labels() {
    assert_eq!(BindAction::PanNorth.label(), "Pan North");
    assert_eq!(BindAction::PanEast.label(), "Pan East");
    assert_eq!(BindAction::ToggleDebugOverlay.label(), "Toggle Performance Overlay");
}

#[test]
fn nation_cycles_through_the_roster_and_back_to_random() {
    let civs = Civilizations(fallback_civilizations());
    assert_eq!(civs.0.len(), 4);
    assert_eq!(Nation::Random.next(&civs), Nation::Fixed(0));
    assert_eq!(Nation::Fixed(3).next(&civs), Nation::Random);
    assert_eq!(Nation::Random.prev(&civs), Nation::Fixed(3));
    assert_eq!(Nation::Fixed(0).prev(&civs), Nation::Random);
    assert_eq!(Nation::Fixed(1).next(&civs).prev(&civs), Nation::Fixed(1));
    assert_eq!(Nation::Fixed(2).label(&civs), "Suncrest");
    assert_eq!(Nation::Random.label(&civs), "Random");
    assert_eq!(Nation::Fixed(9).label(&civs), "Random");
    assert_eq!(Nation::Fixed(0).color(&civs), Some([90, 150, 60]));
    assert_eq!(Nation::Random.color(&civs), None);
    let empty = Civilizations::default();
    assert_eq!(Nation::Random.next(&empty), Nation::Random);
    assert_eq!(Nation::Random.prev(&empty), Nation::Random);
}

#[test]
fn roster_keeps_the_human_slot_and_caps_ai_slots() {
    let civs = Civilizations(fallback_civilizations());
    let mut roster = PlayersSettings::new();
    assert_eq!(roster.slots, vec![PlayerSlot { nation: Nation::Random }]);
    for _ in 0..MAX_AI_SLOTS {
        assert!(roster.add_ai());
    }
    assert!(!roster.add_ai());
    assert_eq!(roster.slots.len(), MAX_AI_SLOTS + 1);
    assert!(!roster.remove_slot(0));
    assert!(!roster.remove_slot(8));
    assert!(roster.step_nation(2, true, &civs));
    assert_eq!(roster.slots[2].nation, Nation::Fixed(0));
    assert!(roster.remove_slot(1));
    assert_eq!(roster.slots.len(), MAX_AI_SLOTS);
    assert_eq!(roster.slots[1].nation, Nation::Fixed(0));
    assert!(roster.step_nation(0, false, &civs));
    assert_eq!(roster.slots[0].nation, Nation::Fixed(3));
    assert!(!roster.step_nation(40, true, &civs));
}

#[test]
fn steppers_stay_in_their_ranges() {
    assert_eq!(step_resolution(512, true), 640);
    assert_eq!(step_resolution(2048, true), 2048);
    assert_eq!(step_resolution(128, false), 128);
    assert_eq!(step_resolution(100, false), 128);
    assert_eq!(step_continents(60, true), 60);
    assert_eq!(step_continents(4, false), 3);
    assert_eq!(step_continents(1, false), 1);
    assert_eq!(step_nations(32, true), 32);
    assert_eq!(step_nations(8, true), 9);
    assert_eq!(step_nations(0, false), 1);
}

#[test]
fn seeds_presets_and_dimensions() {
    assert_eq!(step_seed(0, false), u64::MAX);
    assert_eq!(step_seed(u64::MAX, true), 0);
    assert_eq!(step_seed(41, true), 42);
    assert_eq!(randomize_seed(0), 1442695040888963407);
    assert_eq!(
        randomize_seed(1),
        6364136223846793005u64.wrapping_add(1442695040888963407)
    );
    assert_eq!(preset_prev(0, 5), 4);
    assert_eq!(preset_next(4, 5), 0);
    assert_eq!(preset_next(1, 5), 2);
    assert_eq!(dimensions(512), (512, 256));
    assert_eq!(dimensions(129), (129, 64));
}

#[test]
fn preview_view_toggles_and_labels() {
    assert_eq!(PreviewView::Biome.toggled(), PreviewView::Elevation);
    assert_eq!(PreviewView::Elevation.toggled(), PreviewView::Biome);
    assert_eq!(PreviewView::Biome.label(), "Biome");
    assert_eq!(PreviewView::Elevation.label(), "Elevation");
}

fn menu() -> MenuInts {
    MenuInts {
        preset_index: 0,
        resolution: 512,
        continent_count: 60,
        nation_count: 1,
        seed: u64::MAX,
        view: PreviewView::Biome,
        highlight: false,
        correct_continents: true,
    }
}

#[test]
fn menu_buttons_change_one_setting_each() {
    let s = menu();
    let (t, a) = apply_button(s, 4, MenuButton::ContinentsInc);
    assert_eq!(a, MenuAction::Regenerate);
    assert_eq!(t, s);
    let (t, _) = apply_button(s, 4, MenuButton::NationsDec);
    assert_eq!(t.nation_count, 1);
    let (t, _) = apply_button(s, 4, MenuButton::SeedInc);
    assert_eq!(t.seed, 0);
    let (t, _) = apply_button(t, 4, MenuButton::SeedDec);
    assert_eq!(t.seed, u64::MAX);
    let (t, a) = apply_button(s, 4, MenuButton::PresetPrev);
    assert_eq!((t.preset_index, a), (3, MenuAction::ApplyPreset));
    let (t, _) = apply_button(s, 4, MenuButton::ResolutionInc);
    assert_eq!(t.resolution, 640);
    let (t, _) = apply_button(s, 4, MenuButton::ToggleView);
    assert_eq!(t.view, PreviewView::Elevation);
    let (t, _) = apply_button(s, 4, MenuButton::ToggleCorrectContinents);
    assert!(!t.correct_continents);
    let (t, a) = apply_button(s, 4, MenuButton::Back);
    assert_eq!((t, a), (s, MenuAction::Leave));
    let (t, _) = apply_button(MenuInts { seed: 1, ..s }, 4, MenuButton::RandomizeSeed);
    assert_eq!(t.seed, 7806831264735756412);
}

#[test]
fn menu_value_texts() {
    assert_eq!(number_text(0), "0");
    assert_eq!(number_text(1442695040888963407), "1442695040888963407");
    assert_eq!(on_off_text(true), "On");
    assert_eq!(on_off_text(false), "Off");
    assert_eq!(resolution_text(512), "512x256");
    assert_eq!(continents_text(7, 5), "7 (~5)");
}
