//! What the screens of the game hand to each other.

use crate::generator::Difficulty;
use vstd::prelude::*;

verus! {

/// The screens of the game.
#[derive(Clone, Copy, Debug, PartialEq, Eq, Structural)]
pub enum GameState {
    MainMenu,
    SelectDifficulty,
    Playing,
    LeaderBoard,
}

/// The choices that outlive a screen.
pub struct AddOnContext {
    /// The difficulty of the next puzzle, once one was chosen.
    pub difficulty: Option<Difficulty>,
}

impl AddOnContext {
    /// A context in which no difficulty was chosen yet.
    pub fn new() -> (context: Self)
        ensures
            context.difficulty.is_none(),
    {
        AddOnContext { difficulty: None }
    }

    /// A context that skips the choice of a difficulty.
    pub fn new_forced() -> (context: Self)
        ensures
            context.difficulty == Some(Difficulty::Unrated),
    {
        AddOnContext { difficulty: Some(Difficulty::Unrated) }
    }
}

} // verus!
