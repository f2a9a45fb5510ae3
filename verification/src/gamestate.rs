//! Screens of the surrounding game and the choices offered when a round ends.

use vstd::prelude::*;

verus! {

/// Which screen the game is currently showing.
#[derive(PartialEq, Eq, Structural, Clone, Copy, Debug)]
pub enum GameState {
    MainMenu,
    Settings,
    Scoreboard,
    PlayingSurvival,
    PlayingTimer,
}

/// What the player picked on the end-of-round screen.
#[derive(PartialEq, Eq, Structural, Clone, Copy, Debug)]
pub enum GameEndAction {
    Restart,
    MainMenu,
}

} // verus!
