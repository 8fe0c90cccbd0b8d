//! Taking a feed of runs into a contest.

use vstd::prelude::*;
use super::contest::{logins, ContestView};
use super::run::RunView;
use super::string_map::lemma_rank_parts;

verus! {

/// How a feed of runs is taken in.
#[derive(Debug, PartialEq, Eq, Structural, Clone, Copy)]
pub enum Intake {
    /// Every verdict is made known at once.
    Known,
    /// Every verdict is withheld.
    Withheld,
    /// The verdicts of the runs sent at this minute or later are withheld.
    FrozenFrom(i64),
}

impl Intake {
    /// The verdict of a run sent at minute `time` is withheld.
    pub open spec fn holds_back(self, time: int) -> bool {
        match self {
            Intake::Known => false,
            Intake::Withheld => true,
            Intake::FrozenFrom(freeze) => time >= freeze,
        }
    }

    /// Says whether the verdict of a run sent at minute `time` is
    /// withheld.
    pub fn withholds(&self, time: i64) -> (held: bool)
        ensures
            held == self.holds_back(time as int),
    {
        match self {
            Intake::Known => false,
            Intake::Withheld => true,
            Intake::FrozenFrom(freeze) => time >= *freeze,
        }
    }
}

/// The index of the first of `runs` sent by a team that the roster does
/// not have, or their number where the roster has them all.
pub open spec fn first_unknown(contest: ContestView, runs: Seq<RunView>) -> int
    decreases runs.len(),
{
    if runs.len() == 0 || !contest.has(runs[0].team_login) {
        0
    } else {
        1 + first_unknown(contest, runs.drop_first())
    }
}

/// An index before which every run is of a known team, and which is the
/// number of runs or the index of a run of an unknown team, is the first
/// such index.
pub proof fn lemma_first_unknown_is(contest: ContestView, runs: Seq<RunView>, k: int)
    requires
        0 <= k <= runs.len(),
        forall|i: int| 0 <= i < k ==> contest.has((#[trigger] runs[i]).team_login),
        k < runs.len() ==> !contest.has(runs[k].team_login),
    ensures
        first_unknown(contest, runs) == k,
    decreases k,
{
    if k > 0 {
        let rest = runs.drop_first();
        assert(forall|i: int| 0 <= i < k - 1 ==> #[trigger] rest[i] == runs[i + 1]);
        lemma_first_unknown_is(contest, rest, k - 1);
    }
}

impl ContestView {
    /// The roster has the team of each of `runs`.
    pub open spec fn knows_all(self, runs: Seq<RunView>) -> bool {
        first_unknown(self, runs) == runs.len()
    }

    /// The login that the first of `runs` sent by a team unknown to the
    /// roster names.
    pub open spec fn first_unknown_login(self, runs: Seq<RunView>) -> Seq<char> {
        runs[first_unknown(self, runs)].team_login
    }

    /// The contest after `run` has been taken in.
    pub open spec fn took(self, run: RunView, intake: Intake) -> ContestView {
        if intake.holds_back(run.time) {
            self.withheld(run)
        } else {
            self.judged(run)
        }
    }

    /// The contest after `runs` have been taken in, in their order.
    pub open spec fn fed(self, runs: Seq<RunView>, intake: Intake) -> ContestView
        decreases runs.len(),
    {
        if runs.len() == 0 {
            self
        } else {
            self.fed(runs.drop_last(), intake).took(runs.last(), intake)
        }
    }
}

/// Taking a run in changes neither the roster's logins nor anything but
/// the teams.
pub proof fn lemma_took_keeps_roster(contest: ContestView, run: RunView, intake: Intake)
    requires
        contest.wf(),
    ensures
        logins(contest.took(run, intake).teams) == logins(contest.teams),
        contest.took(run, intake) == (ContestView {
            teams: contest.took(run, intake).teams,
            ..contest
        }),
{
    lemma_rank_parts(logins(contest.teams), run.team_login);
    assert(logins(contest.took(run, intake).teams) =~= logins(contest.teams));
}

} // verus!
