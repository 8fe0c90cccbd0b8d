//! One judged submission.

use vstd::prelude::*;
use super::problem::Answer;

verus! {

/// One judged submission: who sent it, for which problem, at which contest
/// minute, and the verdict.
#[derive(Debug)]
pub struct RunTuple {
    pub id: i64,
    pub time: i64,
    pub team_login: String,
    pub prob: String,
    pub answer: Answer,
}

/// The mathematical value of a [`RunTuple`].
pub struct RunView {
    pub id: int,
    pub time: int,
    pub team_login: Seq<char>,
    pub prob: Seq<char>,
    pub answer: Answer,
}

impl View for RunTuple {
    type V = RunView;

    open spec fn view(&self) -> RunView {
        RunView {
            id: self.id as int,
            time: self.time as int,
            team_login: self.team_login@,
            prob: self.prob@,
            answer: self.answer,
        }
    }
}

impl Clone for RunTuple {
    fn clone(&self) -> (copy: RunTuple)
        ensures
            copy == *self,
    {
        RunTuple {
            id: self.id,
            time: self.time,
            team_login: self.team_login.clone(),
            prob: self.prob.clone(),
            answer: self.answer,
        }
    }
}

/// One line of the panel of latest runs: a run with what the panel shows
/// of its team.
#[derive(Debug)]
pub struct RunsPanelItem {
    pub id: i64,
    pub placement: usize,
    pub color: i64,
    pub escola: String,
    pub team_name: String,
    pub team_login: String,
    pub problem: String,
    pub result: Answer,
}

} // verus!
