//! The coarse run state of an application driving the index.

use vstd::prelude::*;

verus! {

/// Represents the current state of the game.
/// `AssetLoad` —> `Init` —> `Running`
#[derive(Debug, Clone, Copy, Default, PartialEq, Eq, Hash)]
pub enum GameState {
    #[default]
    AssetLoad,
    MainMenu,
    GameInit,
    GameRun,
}

} // verus!
