//! The states the game moves through.
use vstd::prelude::*;

verus! {

/// The game's top-level state.
#[derive(Clone, Copy, PartialEq, Eq, Structural, Debug, Hash)]
pub enum GameState {
    Splash,
    MainMenu,
    Game,
}

/// The state of the in-game pause menu.
#[derive(Clone, Copy, PartialEq, Eq, Structural, Debug, Hash)]
pub enum PauseMenuState {
    Paused,
    Unpaused,
    Settings,
}

} // verus!
