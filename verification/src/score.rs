//! The entries of the leaderboard.

use crate::generator::Difficulty;
use std::time::Duration;
use vstd::prelude::*;

verus! {

/// `Duration::clone` of std. A `Duration` is `Copy`, so its clone is the
/// value itself.
pub assume_specification[ <Duration as Clone>::clone ](time: &Duration) -> (copy: Duration)
    ensures
        copy == *time,
;

/// A finished game: who played, at which difficulty, and how long it took.
#[derive(Clone, Debug)]
pub struct Score {
    pub name: String,
    pub difficulty: Difficulty,
    pub time: Duration,
}

impl Score {
    /// The entry of `name` for a game at `difficulty` that took `time`.
    pub fn new(name: &str, difficulty: Difficulty, time: Duration) -> (score: Self)
        ensures
            score.name@ == name@,
            score.difficulty == difficulty,
            score.time == time,
    {
        Score { name: name.to_string(), difficulty, time }
    }
}

} // verus!
