//! Rebindable keys and the actions that rebinding edits.
use bevy::input::keyboard::KeyCode;
use vstd::prelude::*;

verus! {

#[verifier::external_type_specification]
#[verifier::external_body]
pub struct ExKeyCode(KeyCode);

/// Rebindable keys. Arrow keys always work as a fixed fallback for camera
/// pan and aren't part of this: these are the user-remappable primary
/// binds, the ones the keybind screen edits.
#[derive(Clone, Copy)]
pub struct KeyBindings {
    pub pan_north: KeyCode,
    pub pan_south: KeyCode,
    pub pan_west: KeyCode,
    pub pan_east: KeyCode,
    pub toggle_debug_overlay: KeyCode,
}

/// One rebindable action.
#[derive(Clone, Copy, Debug, PartialEq, Eq, Structural)]
pub enum BindAction {
    PanNorth,
    PanSouth,
    PanWest,
    PanEast,
    ToggleDebugOverlay,
}

impl BindAction {
    /// The key bound to this action in `binds`.
    pub open spec fn key_in(self, binds: KeyBindings) -> KeyCode {
        match self {
            BindAction::PanNorth => binds.pan_north,
            BindAction::PanSouth => binds.pan_south,
            BindAction::PanWest => binds.pan_west,
            BindAction::PanEast => binds.pan_east,
            BindAction::ToggleDebugOverlay => binds.toggle_debug_overlay,
        }
    }

    /// The name the keybind screen shows for this action.
    pub fn label(self) -> (r: &'static str)
        ensures
            r@ == match self {
                BindAction::PanNorth => "Pan North"@,
                BindAction::PanSouth => "Pan South"@,
                BindAction::PanWest => "Pan West"@,
                BindAction::PanEast => "Pan East"@,
                BindAction::ToggleDebugOverlay => "Toggle Performance Overlay"@,
            },
    {
        match self {
            BindAction::PanNorth => "Pan North",
            BindAction::PanSouth => "Pan South",
            BindAction::PanWest => "Pan West",
            BindAction::PanEast => "Pan East",
            BindAction::ToggleDebugOverlay => "Toggle Performance Overlay",
        }
    }

    /// The key currently bound to this action.
    pub fn get(self, binds: &KeyBindings) -> (r: KeyCode)
        ensures
            r == self.key_in(*binds),
    {
        match self {
            BindAction::PanNorth => binds.pan_north,
            BindAction::PanSouth => binds.pan_south,
            BindAction::PanWest => binds.pan_west,
            BindAction::PanEast => binds.pan_east,
            BindAction::ToggleDebugOverlay => binds.toggle_debug_overlay,
        }
    }

    /// Binds `key` to this action. Reading any action back afterwards gives
    /// `key` for this one and the old key for every other.
    pub fn set(self, binds: &mut KeyBindings, key: KeyCode)
        ensures
            forall|a: BindAction|
                #[trigger] a.key_in(*final(binds)) == if a == self {
                    key
                } else {
                    a.key_in(*old(binds))
                },
    {
        match self {
            BindAction::PanNorth => binds.pan_north = key,
            BindAction::PanSouth => binds.pan_south = key,
            BindAction::PanWest => binds.pan_west = key,
            BindAction::PanEast => binds.pan_east = key,
            BindAction::ToggleDebugOverlay => binds.toggle_debug_overlay = key,
        }
    }
}

} // verus!
