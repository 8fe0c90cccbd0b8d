//! The phases of a reveal: taking the feed in, and disclosing what was
//! withheld, worst-ranked team first.

use vstd::prelude::*;
use super::contest::{lemma_ranked, logins, ContestError, ContestFile};
use super::intake::{lemma_first_unknown_is, lemma_took_keeps_roster, Intake};
use super::reveal_state::{
    lemma_drained, lemma_known_is_clear, lemma_last_unknown_is, lemma_queue_known,
    lemma_ranked_coherent, lemma_reveal_keeps_coherent, lemma_seeded_synced,
    lemma_step_keeps_synced, lemma_step_keeps_wf, lemma_step_pays, lemma_steps_add,
    lemma_steps_keep_synced, lemma_steps_on_blocked, lemma_steps_on_empty, lemma_unknown_bounds,
    lemma_worst_first, RevealState,
};
use super::run::RunView;
use super::runs_file::{run_views, RunsFile};
use super::runs_queue::RunsQueue;
use super::score::ScoreView;

verus! {

/// A contest, its feed of runs, and the queue of the teams that owe a
/// disclosure.
pub struct Revelation {
    pub contest: ContestFile,
    /// The feed of runs.
    pub runs: RunsFile,
    /// The teams that owe a disclosure, worst-ranked last.
    pub runs_queue: RunsQueue,
}

impl Revelation {
    /// The contest is well-formed and the queue stands in ranking order.
    pub open spec fn wf(&self) -> bool {
        &&& self.contest.wf()
        &&& self.runs_queue.wf()
    }

    /// Says whether the reveal is well-formed.
    pub fn is_wf(&self) -> (ok: bool)
        ensures
            ok == self.wf(),
    {
        self.contest.is_wf() && self.runs_queue.is_wf()
    }

    /// A reveal of `contest` over the feed `runs`, with nothing queued.
    pub fn new(contest: ContestFile, runs: RunsFile) -> (reveal: Revelation)
        ensures
            reveal.contest == contest,
            reveal.runs == runs,
            reveal.runs_queue@ == Seq::<ScoreView>::empty(),
            contest.wf() ==> reveal.wf(),
    {
        Revelation { contest, runs, runs_queue: RunsQueue::empty() }
    }

    /// The contest together with the queue.
    pub open spec fn state(&self) -> RevealState {
        RevealState { contest: self.contest@, queue: self.runs_queue@ }
    }

    /// How many entries the queue has: the teams that still owe a
    /// disclosure, once the feed has been taken in.
    pub fn pending(&self) -> (n: usize)
        ensures
            n == self.runs_queue@.len(),
    {
        self.runs_queue.len()
    }

    /// Takes the whole feed in. Fails, and changes nothing, where a run
    /// names a team that the roster does not have.
    fn take_in(&mut self, intake: Intake) -> (done: Result<(), ContestError>)
        requires
            old(self).wf(),
        ensures
            final(self).wf(),
            final(self).runs@ == old(self).runs@,
            final(self).runs_queue@ == old(self).runs_queue@,
            done is Ok <==> old(self).contest@.knows_all(old(self).runs@),
            done is Ok ==> final(self).contest@ == old(self).contest@.fed(old(self).runs@, intake),
            done matches Err(ContestError::UnmatchedTeam(login)) ==> {
                &&& login@ == old(self).contest@.first_unknown_login(old(self).runs@)
                &&& *final(self) == *old(self)
            },
    {
        let runs = self.runs.sorted();
        let ghost feed = run_views(runs@);
        let ghost start = self.contest@;
        proof {
            self.contest.lemma_view_wf();
        }
        let mut i: usize = 0;
        while i < runs.len()
            invariant
                i <= runs@.len(),
                feed == run_views(runs@),
                feed == self.runs@,
                *self == *old(self),
                self.wf(),
                start == self.contest@,
                self.contest.wf(),
                logins(start.teams) == self.contest.teams.key_seq(),
                forall|j: int| 0 <= j < i ==> start.has((#[trigger] feed[j]).team_login),
            decreases runs@.len() - i,
        {
            assert(feed[i as int] == runs@[i as int]@);
            let (_, here) = self.contest.teams.locate(runs[i].team_login.as_str());
            if !here {
                proof {
                    lemma_first_unknown_is(start, feed, i as int);
                }
                return Err(ContestError::UnmatchedTeam(runs[i].team_login.clone()));
            }
            i += 1;
        }
        proof {
            lemma_first_unknown_is(start, feed, i as int);
            assert(feed.take(0) == Seq::<RunView>::empty());
        }
        let mut i: usize = 0;
        while i < runs.len()
            invariant
                i <= runs@.len(),
                feed == run_views(runs@),
                feed == old(self).runs@,
                self.runs@ == old(self).runs@,
                self.runs_queue@ == old(self).runs_queue@,
                self.runs_queue.wf(),
                start == old(self).contest@,
                start.wf(),
                self.contest.wf(),
                logins(self.contest@.teams) == logins(start.teams),
                forall|j: int| 0 <= j < feed.len() ==> start.has((#[trigger] feed[j]).team_login),
                self.contest@ == start.fed(feed.take(i as int), intake),
            decreases runs@.len() - i,
        {
            let run = &runs[i];
            proof {
                assert(feed[i as int] == run@);
                assert(feed.take(i + 1).drop_last() == feed.take(i as int));
                assert(feed.take(i + 1).last() == run@);
                self.contest.lemma_view_wf();
                lemma_took_keeps_roster(self.contest@, run@, intake);
            }
            if intake.withholds(run.time) {
                match self.contest.apply_run_frozen(run) {
                    Ok(_) => {},
                    Err(e) => {
                        return Err(e);
                    },
                }
            } else {
                match self.contest.apply_run(run) {
                    Ok(_) => {},
                    Err(e) => {
                        return Err(e);
                    },
                }
            }
            i += 1;
        }
        assert(feed.take(i as int) == feed);
        Ok(())
    }

    /// Computes the standings; the roster being the only source of
    /// logins, this cannot fail.
    fn rerank(&mut self)
        requires
            old(self).wf(),
        ensures
            final(self).wf(),
            final(self).runs@ == old(self).runs@,
            final(self).runs_queue == old(self).runs_queue,
            final(self).state() == old(self).state().ranked(),
    {
        let _ = self.contest.recalculate_placement();
    }

    /// Takes the feed in as the contest's freeze asks: the verdicts of the
    /// runs sent before the freeze are made known, the others withheld.
    /// Then queues every team that owes a disclosure and computes the
    /// standings.
    ///
    /// Fails, and changes nothing, where a run names a team that the
    /// roster does not have; the error names the team of the first such
    /// run. Started with an empty queue, this leaves the reveal coherent.
    pub fn apply_all_runs_before_frozen(&mut self) -> (done: Result<(), ContestError>)
        requires
            old(self).wf(),
        ensures
            final(self).wf(),
            final(self).runs@ == old(self).runs@,
            done is Ok <==> old(self).contest@.knows_all(old(self).runs@),
            done is Ok ==> final(self).state() == old(self).state().loaded(
                old(self).runs@,
                Intake::FrozenFrom(old(self).contest.score_freeze_time),
            ),
            done is Ok && old(self).runs_queue@.len() == 0 ==> final(self).state().coherent(),
            done matches Err(ContestError::UnmatchedTeam(login)) ==> {
                &&& login@ == old(self).contest@.first_unknown_login(old(self).runs@)
                &&& *final(self) == *old(self)
            },
    {
        let intake = Intake::FrozenFrom(self.contest.score_freeze_time);
        self.load(intake)
    }

    /// Takes the feed in with every verdict withheld, then queues every
    /// team that owes a disclosure and computes the standings.
    ///
    /// Fails, and changes nothing, where a run names a team that the
    /// roster does not have; the error names the team of the first such
    /// run. Started with an empty queue, this leaves the reveal coherent.
    pub fn apply_all_runs_on_frozen(&mut self) -> (done: Result<(), ContestError>)
        requires
            old(self).wf(),
        ensures
            final(self).wf(),
            final(self).runs@ == old(self).runs@,
            done is Ok <==> old(self).contest@.knows_all(old(self).runs@),
            done is Ok ==> final(self).state() == old(self).state().loaded(
                old(self).runs@,
                Intake::Withheld,
            ),
            done is Ok && old(self).runs_queue@.len() == 0 ==> final(self).state().coherent(),
            done matches Err(ContestError::UnmatchedTeam(login)) ==> {
                &&& login@ == old(self).contest@.first_unknown_login(old(self).runs@)
                &&& *final(self) == *old(self)
            },
    {
        self.load(Intake::Withheld)
    }

    /// Takes the feed in with every verdict made known, and computes the
    /// standings. The queue stays as it is.
    ///
    /// Fails, and changes nothing, where a run names a team that the
    /// roster does not have; the error names the team of the first such
    /// run.
    pub fn apply_all_runs(&mut self) -> (done: Result<(), ContestError>)
        requires
            old(self).wf(),
        ensures
            final(self).wf(),
            final(self).runs@ == old(self).runs@,
            final(self).runs_queue@ == old(self).runs_queue@,
            done is Ok <==> old(self).contest@.knows_all(old(self).runs@),
            done is Ok ==> final(self).contest@ == old(self).contest@.fed(
                old(self).runs@,
                Intake::Known,
            ).ranked(),
            done matches Err(ContestError::UnmatchedTeam(login)) ==> {
                &&& login@ == old(self).contest@.first_unknown_login(old(self).runs@)
                &&& *final(self) == *old(self)
            },
    {
        match self.take_in(Intake::Known) {
            Ok(_) => {},
            Err(e) => {
                return Err(e);
            },
        }
        self.rerank();
        Ok(())
    }

    /// Takes the feed in, queues every team that owes a disclosure, and
    /// computes the standings.
    fn load(&mut self, intake: Intake) -> (done: Result<(), ContestError>)
        requires
            old(self).wf(),
        ensures
            final(self).wf(),
            final(self).runs@ == old(self).runs@,
            done is Ok <==> old(self).contest@.knows_all(old(self).runs@),
            done is Ok ==> final(self).state() == old(self).state().loaded(old(self).runs@, intake),
            done is Ok && old(self).runs_queue@.len() == 0 ==> final(self).state().coherent(),
            done matches Err(ContestError::UnmatchedTeam(login)) ==> {
                &&& login@ == old(self).contest@.first_unknown_login(old(self).runs@)
                &&& *final(self) == *old(self)
            },
    {
        match self.take_in(intake) {
            Ok(_) => {},
            Err(e) => {
                return Err(e);
            },
        }
        self.runs_queue.setup_teams(&self.contest);
        proof {
            self.contest.lemma_view_wf();
            if old(self).runs_queue@.len() == 0 {
                assert(old(self).runs_queue@ == Seq::<ScoreView>::empty());
                lemma_seeded_synced(self.contest@);
                lemma_ranked_coherent(self.state());
            }
        }
        self.rerank();
        Ok(())
    }

    /// Discloses one verdict and computes the standings anew.
    ///
    /// The last entry of the queue, the worst-ranked, leaves it; the
    /// oldest withheld verdict of the first problem of its team that owes
    /// a disclosure is made known; the team comes back into the queue
    /// with its new score if it still owes one. On an empty queue nothing
    /// happens. Fails, and changes nothing, where the roster has no team
    /// of the login that the last entry names.
    ///
    /// In a coherent reveal the team whose verdict is disclosed is the
    /// worst-placed of all that owe one, and the reveal stays coherent.
    pub fn apply_one_run_from_queue(&mut self) -> (done: Result<(), ContestError>)
        requires
            old(self).wf(),
        ensures
            final(self).wf(),
            final(self).runs@ == old(self).runs@,
            done is Ok <==> old(self).runs_queue@.len() == 0 || old(self).state().can_step(),
            final(self).state() == old(self).state().revealed_one(),
            done matches Err(ContestError::UnmatchedTeam(login)) ==> {
                &&& login@ == old(self).runs_queue@.last().team_login
                &&& *final(self) == *old(self)
            },
            old(self).state().coherent() ==> done is Ok && final(self).state().coherent(),
            old(self).state().coherent() && old(self).runs_queue@.len() > 0
                ==> old(self).state().worst_first(),
    {
        let ghost start = self.state();
        proof {
            self.contest.lemma_view_wf();
            if start.coherent() {
                lemma_reveal_keeps_coherent(start);
                if start.queue.len() > 0 {
                    lemma_worst_first(start);
                }
            }
        }
        if self.runs_queue.len() == 0 {
            return Ok(());
        }
        match self.runs_queue.pop_run(&mut self.contest) {
            Ok(_) => {},
            Err(e) => {
                return Err(e);
            },
        }
        self.rerank();
        Ok(())
    }

    /// Looks for an entry of the queue that names a team the roster does
    /// not have, from the last entry back.
    fn check_queue(&self) -> (done: Result<(), ContestError>)
        requires
            self.wf(),
        ensures
            done is Ok <==> self.state().queue_known(),
            done matches Err(ContestError::UnmatchedTeam(login)) ==> login@
                == self.state().last_unknown_login(),
    {
        let ghost s = self.state();
        proof {
            self.contest.lemma_view_wf();
        }
        let mut i: usize = self.runs_queue.queue.len();
        while i > 0
            invariant
                i <= self.runs_queue.queue@.len(),
                s == self.state(),
                self.contest.wf(),
                logins(s.contest.teams) == self.contest.teams.key_seq(),
                forall|j: int|
                    i <= j < s.queue.len() ==> s.contest.has((#[trigger] s.queue[j]).team_login),
            decreases i,
        {
            i -= 1;
            assert(s.queue[i as int] == self.runs_queue.queue@[i as int]@);
            let (_, here) = self.contest.teams.locate(self.runs_queue.queue[i].team_login.as_str());
            if !here {
                proof {
                    lemma_last_unknown_is(s, i as int);
                }
                let login = self.runs_queue.queue[i].team_login.clone();
                return Err(ContestError::UnmatchedTeam(login));
            }
        }
        proof {
            lemma_last_unknown_is(s, -1);
        }
        Ok(())
    }

    /// Discloses `n` verdicts, or as many as the queue gives, and computes
    /// the standings once at the end: what `n` single disclosures do,
    /// but for the standings in between.
    ///
    /// Fails, and changes nothing, where one of these disclosures meets
    /// an entry of the queue that names a team the roster does not have;
    /// the error names that team. An entry of that kind which the `n`
    /// disclosures do not reach does no harm. With the queue in step with
    /// the teams this cannot happen, and the reveal is coherent
    /// afterwards.
    pub fn apply_runs_from_queue(&mut self, n: usize) -> (done: Result<(), ContestError>)
        requires
            old(self).wf(),
        ensures
            final(self).wf(),
            final(self).runs@ == old(self).runs@,
            done is Ok <==> old(self).state().clear_for(n as nat),
            done is Ok ==> final(self).state() == old(self).state().stepped_n(n as nat).ranked(),
            done matches Err(ContestError::UnmatchedTeam(login)) ==> {
                &&& login@ == old(self).state().blocking_login(n as nat)
                &&& *final(self) == *old(self)
            },
            old(self).state().synced() ==> done is Ok && final(self).state().coherent(),
    {
        let ghost start = self.state();
        proof {
            self.contest.lemma_view_wf();
            lemma_steps_keep_synced(start, n as nat);
        }
        match self.check_queue() {
            Ok(_) => {
                // Nothing can stop the disclosures: they are made in place.
                proof {
                    lemma_known_is_clear(start, n as nat);
                }
                match disclose(&mut self.runs_queue, &mut self.contest, n) {
                    Ok(_) => {},
                    Err(e) => {
                        return Err(e);
                    },
                }
            },
            Err(_) => {
                // Some entry names an unknown team. The disclosures are made
                // on a copy, which takes the place of the reveal only if they
                // do not reach that entry.
                proof {
                    if start.synced() {
                        let k = start.last_unknown();
                        lemma_unknown_bounds(start);
                        assert(start.live(k));
                    }
                }
                let mut contest = self.contest.clone();
                let mut queue = self.runs_queue.clone();
                match disclose(&mut queue, &mut contest, n) {
                    Ok(_) => {
                        self.contest = contest;
                        self.runs_queue = queue;
                    },
                    Err(e) => {
                        return Err(e);
                    },
                }
            },
        }
        proof {
            if start.synced() {
                lemma_ranked_coherent(start.stepped_n(n as nat));
            }
        }
        self.rerank();
        Ok(())
    }

    /// Discloses every withheld verdict that the queue leads to, and
    /// computes the standings once at the end. The queue is empty
    /// afterwards.
    ///
    /// Fails, and changes nothing, where an entry of the queue names a
    /// team that the roster does not have; the error names the team of
    /// the last such entry. With the queue in step with the teams this
    /// cannot happen; the reveal is coherent afterwards, and each team is
    /// as it is after every disclosure it owed.
    pub fn apply_all_runs_from_queue(&mut self) -> (done: Result<(), ContestError>)
        requires
            old(self).wf(),
        ensures
            final(self).wf(),
            final(self).runs@ == old(self).runs@,
            done is Ok <==> old(self).state().queue_known(),
            done is Ok ==> final(self).state() == old(self).state().drained().ranked()
                && final(self).runs_queue@.len() == 0,
            done matches Err(ContestError::UnmatchedTeam(login)) ==> {
                &&& login@ == old(self).state().last_unknown_login()
                &&& *final(self) == *old(self)
            },
            old(self).state().synced() ==> done is Ok && final(self).state().coherent(),
            old(self).state().synced() ==> final(self).state().all_disclosed_of(old(self).state()),
    {
        let ghost start = self.state();
        match self.check_queue() {
            Ok(_) => {},
            Err(e) => {
                proof {
                    if start.synced() {
                        let k = start.last_unknown();
                        lemma_unknown_bounds(start);
                        assert(start.live(k));
                    }
                }
                return Err(e);
            },
        }
        proof {
            self.contest.lemma_view_wf();
            if start.synced() {
                lemma_drained(start);
                lemma_ranked(start.drained().contest);
            }
        }
        while self.runs_queue.len() > 0
            invariant
                self.wf(),
                self.runs@ == old(self).runs@,
                self.state().queue_known(),
                self.state().drained() == start.drained(),
                start.synced() ==> self.state().synced(),
            decreases self.state().debt(),
        {
            proof {
                lemma_queue_known(self.state());
                lemma_step_keeps_wf(self.state());
                lemma_step_pays(self.state());
                if self.state().synced() {
                    lemma_step_keeps_synced(self.state());
                }
                self.contest.lemma_view_wf();
            }
            match self.runs_queue.pop_run(&mut self.contest) {
                Ok(_) => {},
                Err(e) => {
                    return Err(e);
                },
            }
        }
        proof {
            self.contest.lemma_view_wf();
            if start.synced() {
                lemma_ranked_coherent(self.state());
            }
        }
        self.rerank();
        Ok(())
    }
}

/// Makes `n` disclosures, or as many as the queue gives, one after the
/// other, and stops at an entry that names a team the roster does not
/// have.
fn disclose(queue: &mut RunsQueue, contest: &mut ContestFile, n: usize) -> (done: Result<
    (),
    ContestError,
>)
    requires
        old(queue).wf(),
        old(contest).wf(),
    ensures
        final(queue).wf(),
        final(contest).wf(),
        (RevealState { contest: final(contest)@, queue: final(queue)@ }) == (RevealState {
            contest: old(contest)@,
            queue: old(queue)@,
        }).stepped_n(n as nat),
        done is Ok <==> (RevealState { contest: old(contest)@, queue: old(queue)@ }).clear_for(
            n as nat,
        ),
        done matches Err(ContestError::UnmatchedTeam(login)) ==> login@ == (RevealState {
            contest: old(contest)@,
            queue: old(queue)@,
        }).blocking_login(n as nat),
{
    let ghost start = RevealState { contest: contest@, queue: queue@ };
    proof {
        contest.lemma_view_wf();
    }
    let mut i: usize = 0;
    while i < n && queue.len() > 0
        invariant
            i <= n,
            queue.wf(),
            contest.wf(),
            start.wf(),
            start == (RevealState { contest: old(contest)@, queue: old(queue)@ }),
            (RevealState { contest: contest@, queue: queue@ }) == start.stepped_n(i as nat),
            start.clear_for(i as nat),
        decreases n - i,
    {
        let ghost now = RevealState { contest: contest@, queue: queue@ };
        match queue.pop_run(contest) {
            Ok(_) => {},
            Err(e) => {
                proof {
                    assert(now.blocked());
                    assert((RevealState { contest: contest@, queue: queue@ }) == now);
                    lemma_steps_on_blocked(now, (n - i) as nat);
                    lemma_steps_add(start, i as nat, (n - i) as nat);
                    assert(i as nat + (n - i) as nat == n as nat);
                    assert(start.stepped_n(n as nat) == now);
                    lemma_steps_on_blocked(now, (n - 1 - i) as nat);
                    lemma_steps_add(start, i as nat, (n - 1 - i) as nat);
                    assert(i as nat + (n - 1 - i) as nat == (n - 1) as nat);
                    assert(start.stepped_n((n - 1) as nat) == now);
                }
                return Err(e);
            },
        }
        proof {
            assert(!now.blocked());
            assert(start.stepped_n((i + 1) as nat) == now.stepped());
        }
        i += 1;
    }
    proof {
        if i < n {
            let now = RevealState { contest: contest@, queue: queue@ };
            lemma_steps_on_empty(now, (n - i) as nat);
            lemma_steps_add(start, i as nat, (n - i) as nat);
            assert(i as nat + (n - i) as nat == n as nat);
            lemma_steps_on_empty(now, (n - 1 - i) as nat);
            lemma_steps_add(start, i as nat, (n - 1 - i) as nat);
            assert(i as nat + (n - 1 - i) as nat == (n - 1) as nat);
        }
    }
    Ok(())
}

} // verus!
