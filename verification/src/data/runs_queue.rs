//! The queue that decides whose withheld verdict is disclosed next.

use vstd::prelude::*;
use super::contest::{ContestError, ContestFile, ContestView};
use super::ranking::{in_rank_order, is_in_rank_order, push_score, pushed, score_views};
use super::score::{Score, ScoreView};

use super::team::TeamView;

verus! {

/// `queue` with the score of each of `teams` that owes a disclosure put in,
/// the teams taken in their order.
pub open spec fn seeded(queue: Seq<ScoreView>, teams: Seq<TeamView>) -> Seq<ScoreView>
    decreases teams.len(),
{
    if teams.len() == 0 {
        queue
    } else {
        let before = seeded(queue, teams.drop_last());
        if teams.last().waiting() {
            pushed(before, teams.last().score())
        } else {
            before
        }
    }
}

/// A disclosure can be made: the queue has an entry, and the roster has
/// the team that the last entry, the worst-ranked, names.
pub open spec fn can_step(queue: Seq<ScoreView>, contest: ContestView) -> bool {
    queue.len() > 0 && contest.has(queue.last().team_login)
}

/// Where the team that the last entry of the queue names stands in the
/// roster.
pub open spec fn next_team(queue: Seq<ScoreView>, contest: ContestView) -> int {
    contest.index_of(queue.last().team_login)
}

/// The contest after one disclosure: the team that the last entry of the
/// queue names has had one verdict disclosed, a rejected run costing
/// what the contest charges for one. Nothing changes where no disclosure
/// can be made.
pub open spec fn contest_stepped(queue: Seq<ScoreView>, contest: ContestView) -> ContestView {
    if can_step(queue, contest) {
        let k = next_team(queue, contest);
        ContestView {
            teams: contest.teams.update(
                k,
                contest.teams[k].revealed(contest.penalty_per_wrong_answer),
            ),
            ..contest
        }
    } else {
        contest
    }
}

/// The queue after one disclosure: the last entry has left, and the team
/// it named has come back with its new score if it still owes a
/// disclosure. Nothing changes where no disclosure can be made.
pub open spec fn queue_stepped(queue: Seq<ScoreView>, contest: ContestView) -> Seq<ScoreView> {
    if can_step(queue, contest) {
        let team = contest.teams[next_team(queue, contest)].revealed(
            contest.penalty_per_wrong_answer,
        );
        if team.waiting() {
            pushed(queue.drop_last(), team.score())
        } else {
            queue.drop_last()
        }
    } else {
        queue
    }
}

/// The scores of the teams that owe a disclosure, worst-ranked last.
#[derive(Debug)]
pub struct RunsQueue {
    /// The entries in ranking order, best first; the next to leave is the
    /// last.
    pub queue: Vec<Score>,
}

impl View for RunsQueue {
    type V = Seq<ScoreView>;

    open spec fn view(&self) -> Seq<ScoreView> {
        score_views(self.queue@)
    }
}

impl Clone for RunsQueue {
    fn clone(&self) -> (copy: RunsQueue)
        ensures
            copy@ == self@,
    {
        let mut queue: Vec<Score> = Vec::new();
        let n = self.queue.len();
        let mut i: usize = 0;
        while i < n
            invariant
                i <= n,
                n == self.queue@.len(),
                queue@ == self.queue@.take(i as int),
            decreases n - i,
        {
            queue.push(self.queue[i].clone());
            assert(queue@ == self.queue@.take(i + 1));
            i += 1;
        }
        assert(self.queue@.take(n as int) == self.queue@);
        RunsQueue { queue }
    }
}

impl RunsQueue {
    /// The entries stand in ranking order.
    pub open spec fn wf(&self) -> bool {
        in_rank_order(self@)
    }

    /// Says whether the queue is well-formed.
    pub fn is_wf(&self) -> (ok: bool)
        ensures
            ok == self.wf(),
    {
        is_in_rank_order(&self.queue)
    }

    /// A queue without entries.
    pub fn empty() -> (queue: RunsQueue)
        ensures
            queue.wf(),
            queue@ == Seq::<ScoreView>::empty(),
    {
        let queue = RunsQueue { queue: Vec::new() };
        assert(queue@ == Seq::<ScoreView>::empty());
        queue
    }

    /// The number of entries.
    pub fn len(&self) -> (n: usize)
        ensures
            n == self@.len(),
    {
        self.queue.len()
    }

    /// Puts in the score of every team of `contest` that owes a
    /// disclosure.
    pub fn setup_teams(&mut self, contest: &ContestFile)
        requires
            old(self).wf(),
        ensures
            final(self).wf(),
            final(self)@ == seeded(old(self)@, contest@.teams),
    {
        let ghost teams = contest@.teams;
        let mut i: usize = 0;
        while i < contest.teams.values.len()
            invariant
                i <= contest.teams.values@.len(),
                teams == contest@.teams,
                self.wf(),
                self@ == seeded(old(self)@, teams.take(i as int)),
            decreases contest.teams.values@.len() - i,
        {
            let team = &contest.teams.values[i];
            proof {
                assert(teams.take(i + 1).drop_last() == teams.take(i as int));
                assert(teams.take(i + 1).last() == team@);
            }
            if team.wait() {
                push_score(&mut self.queue, team.score());
            }
            i += 1;
        }
        assert(teams.take(i as int) == teams);
    }

    /// Discloses one verdict. Takes the last entry, the worst-ranked, off
    /// the queue, discloses the oldest withheld verdict of the first
    /// problem of its team that owes one, a rejected run costing what the
    /// contest charges for one, and puts the team back with its new score
    /// if it still owes a disclosure.
    ///
    /// Does nothing on an empty queue. Fails, and changes nothing, where
    /// the roster has no team of the login that the last entry names.
    pub fn pop_run(&mut self, contest: &mut ContestFile) -> (done: Result<(), ContestError>)
        requires
            old(self).wf(),
            old(contest).wf(),
        ensures
            final(self).wf(),
            final(contest).wf(),
            final(self)@ == queue_stepped(old(self)@, old(contest)@),
            final(contest)@ == contest_stepped(old(self)@, old(contest)@),
            done is Ok <==> old(self)@.len() == 0 || can_step(old(self)@, old(contest)@),
            done matches Err(ContestError::UnmatchedTeam(login)) ==> {
                &&& login@ == old(self)@.last().team_login
                &&& *final(self) == *old(self)
                &&& *final(contest) == *old(contest)
            },
    {
        let n = self.queue.len();
        if n == 0 {
            return Ok(());
        }
        proof {
            contest.lemma_view_wf();
            assert(self@.last() == self.queue@[n - 1]@);
        }
        let (at, here) = contest.teams.locate(self.queue[n - 1].team_login.as_str());
        if !here {
            return Err(ContestError::UnmatchedTeam(self.queue[n - 1].team_login.clone()));
        }
        let _ = self.queue.pop();
        proof {
            assert(self@ == old(self)@.drop_last());
            assert(in_rank_order(self@)) by {
                assert forall|i: int, j: int| 0 <= i < j < self@.len() implies !(
                #[trigger] self@[j]).before(#[trigger] self@[i]) by {
                    assert(self@[i] == old(self)@[i]);
                    assert(self@[j] == old(self)@[j]);
                }
            }
        }
        let cost = contest.penalty_per_wrong_answer;
        contest.teams.values[at].reveal_run_frozen(cost);
        proof {
            assert(contest@.teams == contest_stepped(old(self)@, old(contest)@).teams);
        }
        if contest.teams.values[at].wait() {
            let score = contest.teams.values[at].score();
            push_score(&mut self.queue, score);
        }
        Ok(())
    }
}

} // verus!
