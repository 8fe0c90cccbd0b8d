//! The clock of a contest.

use vstd::prelude::*;

verus! {

/// Contest minutes.
pub type TimeFile = i64;

/// The present minute of a contest and the minute at which its score
/// board freezes.
#[derive(Copy, Debug, Clone)]
pub struct TimerData {
    pub current_time: TimeFile,
    pub score_freeze_time: i64,
}

impl TimerData {
    /// A clock at minute `current_time` of a contest that freezes at minute
    /// `score_freeze_time`.
    pub fn new(current_time: TimeFile, score_freeze_time: i64) -> (timer: TimerData)
        ensures
            timer.current_time == current_time,
            timer.score_freeze_time == score_freeze_time,
    {
        TimerData { current_time, score_freeze_time }
    }

    /// The score board is frozen: the freeze minute has come.
    pub open spec fn frozen(&self) -> bool {
        self.current_time >= self.score_freeze_time
    }

    /// Says whether the score board is frozen.
    pub fn is_frozen(&self) -> (frozen: bool)
        ensures
            frozen == self.frozen(),
    {
        self.current_time >= self.score_freeze_time
    }
}

} // verus!
