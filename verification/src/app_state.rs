//! Top-level application states.

use vstd::prelude::*;

verus! {

/// Which screen the application is on.
#[derive(Clone, Copy, PartialEq, Eq, Structural, Hash, Debug)]
pub enum AppState {
    MainMenu,
    Game,
}

impl Default for AppState {
    fn default() -> (r: AppState)
        ensures
            r == AppState::MainMenu,
    {
        AppState::MainMenu
    }
}

} // verus!
