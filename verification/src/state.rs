//! The game's top-level flow states.
use vstd::prelude::*;

verus! {

/// Top-level game flow: the main menu, or a game in progress.
#[derive(Clone, Copy, Debug, PartialEq, Eq, Hash, Structural)]
pub enum GameState {
    MainMenu,
    InGame,
}

impl Default for GameState {
    /// The game starts at the main menu.
    fn default() -> (r: Self)
        ensures
            r == GameState::MainMenu,
    {
        GameState::MainMenu
    }
}

/// Whether the simulation and camera run or are suspended by the pause
/// menu. It only has a meaning while a game is in progress, and pausing or
/// resuming never changes the `GameState`.
#[derive(Clone, Copy, Debug, PartialEq, Eq, Hash, Structural)]
pub enum PauseState {
    Running,
    Paused,
}

impl Default for PauseState {
    /// A game starts running.
    fn default() -> (r: Self)
        ensures
            r == PauseState::Running,
    {
        PauseState::Running
    }
}

/// The other pause state: running becomes paused and paused running.
pub open spec fn flipped(p: PauseState) -> PauseState {
    match p {
        PauseState::Running => PauseState::Paused,
        PauseState::Paused => PauseState::Running,
    }
}

} // verus!
