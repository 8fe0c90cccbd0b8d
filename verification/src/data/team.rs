//! A team: who it is, where it stands, and its problems.

use vstd::prelude::*;
use super::lexical::ascending;
use super::problem::{clamp_i64, Answer, Problem, ProblemView};
use super::run::RunTuple;
use super::score::{Score, ScoreView};
use super::string_map::{holds, rank, StringMap};

verus! {

/// The views of `problems`, in their order.
pub open spec fn problem_views(problems: Seq<Problem>) -> Seq<ProblemView> {
    problems.map_values(|p: Problem| p@)
}

/// How many of `problems` are solved.
pub open spec fn solved_count(problems: Seq<ProblemView>) -> nat
    decreases problems.len(),
{
    if problems.len() == 0 {
        0
    } else {
        solved_count(problems.drop_last()) + if problems.last().solved {
            1nat
        } else {
            0nat
        }
    }
}

/// The sum of the penalties of the solved among `problems`.
pub open spec fn penalty_sum(problems: Seq<ProblemView>) -> int
    decreases problems.len(),
{
    if problems.len() == 0 {
        0
    } else {
        penalty_sum(problems.drop_last()) + if problems.last().solved {
            problems.last().penalty
        } else {
            0
        }
    }
}

/// The latest minute at which one of `problems` was solved; 0 where none
/// was, or none after minute 0.
pub open spec fn latest_solution(problems: Seq<ProblemView>) -> int
    decreases problems.len(),
{
    if problems.len() == 0 {
        0
    } else {
        let earlier = latest_solution(problems.drop_last());
        if problems.last().solved && problems.last().time_solved > earlier {
            problems.last().time_solved
        } else {
            earlier
        }
    }
}

/// The index of the first of `problems` that owes a disclosure, or their
/// number where none does.
pub open spec fn first_waiting(problems: Seq<ProblemView>) -> int
    decreases problems.len(),
{
    if problems.len() == 0 || problems[0].waiting() {
        0
    } else {
        1 + first_waiting(problems.drop_first())
    }
}

/// An index before which no problem owes a disclosure, and which is the
/// number of problems or the index of one that does, is the first such
/// index.
pub proof fn lemma_first_waiting_is(problems: Seq<ProblemView>, k: int)
    requires
        0 <= k <= problems.len(),
        forall|i: int| 0 <= i < k ==> !(#[trigger] problems[i]).waiting(),
        k < problems.len() ==> problems[k].waiting(),
    ensures
        first_waiting(problems) == k,
    decreases k,
{
    if k > 0 {
        let rest = problems.drop_first();
        assert(forall|i: int| 0 <= i < k - 1 ==> #[trigger] rest[i] == problems[i + 1]);
        lemma_first_waiting_is(rest, k - 1);
    }
}

/// The first waiting index parts the problems as its name says.
pub proof fn lemma_first_waiting_parts(problems: Seq<ProblemView>)
    ensures
        0 <= first_waiting(problems) <= problems.len(),
        forall|i: int| 0 <= i < first_waiting(problems) ==> !(#[trigger] problems[i]).waiting(),
        first_waiting(problems) < problems.len() ==> problems[first_waiting(problems)].waiting(),
    decreases problems.len(),
{
    if problems.len() > 0 && !problems[0].waiting() {
        let rest = problems.drop_first();
        lemma_first_waiting_parts(rest);
        assert forall|i: int| 0 <= i < first_waiting(problems) implies !(
        #[trigger] problems[i]).waiting() by {
            if i > 0 {
                assert(problems[i] == rest[i - 1]);
            }
        }
    }
}

/// The views of a sequence with one more problem are the views of the
/// sequence with one more view.
pub proof fn lemma_views_insert(problems: Seq<Problem>, k: int, p: Problem)
    requires
        0 <= k <= problems.len(),
    ensures
        problem_views(problems.insert(k, p)) == problem_views(problems).insert(k, p@),
{
    assert(problem_views(problems.insert(k, p)) =~= problem_views(problems).insert(k, p@));
}

/// One disclosure is a step on the way to having made them all: a team
/// comes to the same end after it as before it.
pub proof fn lemma_revealed_drains_alike(team: TeamView, cost: int)
    ensures
        team.revealed(cost).drained(cost) == team.drained(cost),
        !team.waiting() ==> team.drained(cost) == team,
{
    lemma_first_waiting_parts(team.problems);
    let k = first_waiting(team.problems);
    if team.waiting() {
        let next = team.revealed(cost);
        assert forall|i: int| 0 <= i < team.problems.len() implies (
        #[trigger] next.problems[i]).drained(cost) == team.problems[i].drained(cost) by {
            if i == k {
                assert(team.problems[k].waiting());
            }
        }
        assert(next.drained(cost).problems =~= team.drained(cost).problems);
    } else {
        assert forall|i: int| 0 <= i < team.problems.len() implies (
        #[trigger] team.problems[i]).drained(cost) == team.problems[i] by {
            assert(!team.problems[i].waiting());
        }
        assert(team.drained(cost).problems =~= team.problems);
    }
}

/// The mathematical state of a team.
pub struct TeamView {
    pub login: Seq<char>,
    pub escola: Seq<char>,
    pub name: Seq<char>,
    pub placement: nat,
    /// The ids of the problems the team has a record for, ascending.
    pub ids: Seq<Seq<char>>,
    /// The records; `problems[i]` belongs to `ids[i]`.
    pub problems: Seq<ProblemView>,
}

impl TeamView {
    /// A team that has not been ranked and has no record yet.
    pub open spec fn fresh(login: Seq<char>, escola: Seq<char>, name: Seq<char>) -> TeamView {
        TeamView { login, escola, name, placement: 0, ids: Seq::empty(), problems: Seq::empty() }
    }

    /// Each id has its record, and the ids ascend strictly.
    pub open spec fn wf(self) -> bool {
        &&& self.ids.len() == self.problems.len()
        &&& ascending(self.ids)
    }

    /// The team with a record for `prob`: an empty one where it had none.
    pub open spec fn opened(self, prob: Seq<char>) -> TeamView {
        if holds(self.ids, prob) {
            self
        } else {
            TeamView {
                ids: self.ids.insert(rank(self.ids, prob), prob),
                problems: self.problems.insert(rank(self.ids, prob), ProblemView::empty()),
                ..self
            }
        }
    }

    /// The team after a verdict on `prob` has been made known, where a
    /// rejected run costs `cost` minutes.
    pub open spec fn judged(self, prob: Seq<char>, answer: Answer, cost: int) -> TeamView {
        let k = rank(self.ids, prob);
        let open = self.opened(prob);
        TeamView {
            problems: open.problems.update(k, open.problems[k].judged(answer, cost)),
            ..open
        }
    }

    /// The team after a verdict on `prob` has been taken in but withheld.
    pub open spec fn withheld(self, prob: Seq<char>, answer: Answer) -> TeamView {
        let k = rank(self.ids, prob);
        let open = self.opened(prob);
        TeamView { problems: open.problems.update(k, open.problems[k].withheld(answer)), ..open }
    }

    /// Some problem of the team owes a disclosure.
    pub open spec fn waiting(self) -> bool {
        first_waiting(self.problems) < self.problems.len()
    }

    /// The team after its first problem that owes a disclosure, in the
    /// order of the ids, has had its oldest withheld verdict disclosed,
    /// where a rejected run costs `cost` minutes.
    pub open spec fn revealed(self, cost: int) -> TeamView {
        let k = first_waiting(self.problems);
        if k < self.problems.len() {
            TeamView {
                problems: self.problems.update(k, self.problems[k].revealed(cost)),
                ..self
            }
        } else {
            self
        }
    }

    /// The team after every disclosure it owes has been made: each of its
    /// problems disclosed until it owes none.
    pub open spec fn drained(self, cost: int) -> TeamView {
        TeamView {
            problems: Seq::new(self.problems.len(), |i: int| self.problems[i].drained(cost)),
            ..self
        }
    }

    /// The key by which the team is ranked.
    pub open spec fn score(self) -> ScoreView {
        ScoreView {
            solved: solved_count(self.problems),
            penalty: clamp_i64(penalty_sum(self.problems)),
            max_solution_time: latest_solution(self.problems),
            team_login: self.login,
        }
    }
}

/// A team of the contest.
#[derive(Debug)]
pub struct Team {
    pub login: String,
    pub escola: String,
    pub name: String,
    /// The rank, from 1; 0 until it has been computed.
    pub placement: usize,
    /// The team's record for each problem it has sent a run for.
    pub problems: StringMap<Problem>,
}

impl View for Team {
    type V = TeamView;

    open spec fn view(&self) -> TeamView {
        TeamView {
            login: self.login@,
            escola: self.escola@,
            name: self.name@,
            placement: self.placement as nat,
            ids: self.problems.key_seq(),
            problems: problem_views(self.problems.values@),
        }
    }
}

impl Clone for Team {
    fn clone(&self) -> (copy: Team)
        ensures
            copy@ == self@,
            self.wf() ==> copy.wf(),
    {
        let mut keys: Vec<String> = Vec::new();
        let mut values: Vec<Problem> = Vec::new();
        let n = self.problems.keys.len();
        let mut i: usize = 0;
        while i < n
            invariant
                i <= n,
                n == self.problems.keys@.len(),
                keys@ == self.problems.keys@.take(i as int),
            decreases n - i,
        {
            keys.push(self.problems.keys[i].clone());
            assert(keys@ == self.problems.keys@.take(i + 1));
            i += 1;
        }
        let m = self.problems.values.len();
        let mut i: usize = 0;
        while i < m
            invariant
                i <= m,
                m == self.problems.values@.len(),
                values@.len() == i,
                forall|j: int| 0 <= j < i ==> (#[trigger] values@[j])@ == self.problems.values@[j]@,
            decreases m - i,
        {
            values.push(self.problems.values[i].clone());
            i += 1;
        }
        assert(self.problems.keys@.take(n as int) == self.problems.keys@);
        assert(problem_views(values@) == problem_views(self.problems.values@));
        Team {
            login: self.login.clone(),
            escola: self.escola.clone(),
            name: self.name.clone(),
            placement: self.placement,
            problems: StringMap { keys, values },
        }
    }
}

impl Team {
    /// The records are kept as a map should be.
    pub open spec fn wf(&self) -> bool {
        self.problems.wf()
    }

    /// Says whether the team is well-formed.
    pub fn is_wf(&self) -> (ok: bool)
        ensures
            ok == self.wf(),
    {
        self.problems.is_wf()
    }

    /// A team that has not been ranked and has no record yet.
    pub fn new(login: &str, escola: &str, name: &str) -> (team: Team)
        ensures
            team.wf(),
            team@ == TeamView::fresh(login@, escola@, name@),
    {
        let team = Team {
            login: login.to_owned(),
            escola: escola.to_owned(),
            name: name.to_owned(),
            placement: 0,
            problems: StringMap::new(),
        };
        assert(team@.ids == Seq::<Seq<char>>::empty());
        assert(team@.problems == Seq::<ProblemView>::empty());
        team
    }

    /// A stand-in team.
    pub fn dummy() -> (team: Team)
        ensures
            team.wf(),
            team@ == TeamView::fresh("<login>"@, "<escola>"@, "<nome>"@),
    {
        Team::new("<login>", "<escola>", "<nome>")
    }

    /// Makes the verdict of `run` known on the problem it was sent for; a
    /// rejected run costs `cost` minutes.
    pub fn apply_run(&mut self, run: &RunTuple, cost: i64)
        requires
            old(self).wf(),
        ensures
            final(self).wf(),
            final(self)@ == old(self)@.judged(run@.prob, run@.answer, cost as int),
    {
        let fresh = Problem::empty();
        let ghost blank = fresh;
        let at = self.problems.slot(run.prob.as_str(), fresh);
        proof {
            lemma_views_insert(old(self).problems.values@, at as int, blank);
        }
        assert(problem_views(self.problems.values@) == old(self)@.opened(run@.prob).problems);
        self.problems.values[at].add_run_problem(run.answer, cost);
        assert(problem_views(self.problems.values@) == old(self)@.judged(
            run@.prob,
            run@.answer,
            cost as int,
        ).problems);
    }

    /// Takes the verdict of `run` in without making it known.
    pub fn apply_run_frozen(&mut self, run: &RunTuple)
        requires
            old(self).wf(),
        ensures
            final(self).wf(),
            final(self)@ == old(self)@.withheld(run@.prob, run@.answer),
    {
        let fresh = Problem::empty();
        let ghost blank = fresh;
        let at = self.problems.slot(run.prob.as_str(), fresh);
        proof {
            lemma_views_insert(old(self).problems.values@, at as int, blank);
        }
        assert(problem_views(self.problems.values@) == old(self)@.opened(run@.prob).problems);
        self.problems.values[at].add_run_frozen(run.answer);
        assert(problem_views(self.problems.values@) == old(self)@.withheld(
            run@.prob,
            run@.answer,
        ).problems);
    }

    /// Says where the first problem that owes a disclosure stands, or how
    /// many problems there are where none does.
    pub fn first_waiting(&self) -> (at: usize)
        ensures
            at == first_waiting(self@.problems),
            at <= self.problems.values@.len(),
    {
        let mut i: usize = 0;
        while i < self.problems.values.len()
            invariant
                i <= self.problems.values@.len(),
                forall|j: int| 0 <= j < i ==> !(#[trigger] self@.problems[j]).waiting(),
            decreases self.problems.values@.len() - i,
        {
            if self.problems.values[i].wait() {
                proof {
                    lemma_first_waiting_is(self@.problems, i as int);
                }
                return i;
            }
            i += 1;
        }
        proof {
            lemma_first_waiting_is(self@.problems, i as int);
        }
        i
    }

    /// Some problem of the team owes a disclosure.
    pub fn wait(&self) -> (w: bool)
        ensures
            w == self@.waiting(),
    {
        self.first_waiting() < self.problems.values.len()
    }

    /// Discloses the oldest withheld verdict of the first problem, in the
    /// order of the ids, that owes a disclosure; a rejected run costs
    /// `cost` minutes. Does nothing where no problem owes a disclosure.
    pub fn reveal_run_frozen(&mut self, cost: i64)
        requires
            old(self).wf(),
        ensures
            final(self).wf(),
            final(self)@ == old(self)@.revealed(cost as int),
    {
        let at = self.first_waiting();
        if at < self.problems.values.len() {
            self.problems.values[at].reveal_run_frozen(cost);
            assert(problem_views(self.problems.values@) == old(self)@.revealed(
                cost as int,
            ).problems);
        }
    }

    /// The key by which the team is ranked: the number of its solved
    /// problems, the sum of their penalties held within the range of
    /// `i64`, the minute of its latest solution, and its login.
    pub fn score(&self) -> (score: Score)
        ensures
            score@ == self@.score(),
    {
        let mut solved: usize = 0;
        let mut penalty: i128 = 0;
        let mut max_solution_time: i64 = 0;
        let mut i: usize = 0;
        let ghost problems = self@.problems;
        while i < self.problems.values.len()
            invariant
                i <= self.problems.values@.len(),
                problems == self@.problems,
                solved == solved_count(problems.take(i as int)),
                solved <= i,
                penalty == penalty_sum(problems.take(i as int)),
                -(i * 0x8000_0000_0000_0000) <= penalty <= i * 0x8000_0000_0000_0000,
                max_solution_time == latest_solution(problems.take(i as int)),
            decreases self.problems.values@.len() - i,
        {
            let value = &self.problems.values[i];
            proof {
                assert(problems.take(i + 1).drop_last() == problems.take(i as int));
                assert(problems.take(i + 1).last() == value@);
            }
            if value.solved {
                solved += 1;
                penalty += value.penalty as i128;
                if value.time_solved > max_solution_time {
                    max_solution_time = value.time_solved;
                }
            }
            i += 1;
        }
        assert(problems.take(i as int) == problems);
        let penalty: i64 = if penalty > i64::MAX as i128 {
            i64::MAX
        } else if penalty < i64::MIN as i128 {
            i64::MIN
        } else {
            penalty as i64
        };
        Score { solved, penalty, max_solution_time, team_login: self.login.clone() }
    }
}

} // verus!
