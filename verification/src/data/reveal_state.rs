//! The mathematics of a reveal: a contest together with the queue of the
//! teams that owe a disclosure, and what one disclosure does to both.

use vstd::prelude::*;
use super::contest::{
    lemma_own_index, lemma_ranked, logins, score_logins, team_scores, ContestView,
};
use super::intake::Intake;
use super::run::RunView;

use super::problem::{lemma_reveal_makes_progress, waits, ProblemView};
use super::ranking::{in_rank_order, lemma_pushed, lemma_score_rank_bounds, pushed, score_rank};
use super::runs_queue::{can_step, contest_stepped, next_team, queue_stepped, seeded};
use super::score::{lemma_score_total, ScoreView};
use super::string_map::{lemma_rank_bounds, lemma_rank_parts};
use super::team::{
    first_waiting, lemma_first_waiting_parts, lemma_revealed_drains_alike, TeamView,
};

verus! {

/// The sum of `amounts`.
pub open spec fn total(amounts: Seq<nat>) -> nat
    decreases amounts.len(),
{
    if amounts.len() == 0 {
        0
    } else {
        total(amounts.drop_last()) + amounts.last()
    }
}

/// Changing one amount changes the sum by as much.
pub proof fn lemma_total_update(amounts: Seq<nat>, i: int, amount: nat)
    requires
        0 <= i < amounts.len(),
    ensures
        total(amounts.update(i, amount)) + amounts[i] == total(amounts) + amount,
    decreases amounts.len(),
{
    let changed = amounts.update(i, amount);
    if i == amounts.len() - 1 {
        assert(changed.drop_last() == amounts.drop_last());
    } else {
        lemma_total_update(amounts.drop_last(), i, amount);
        assert(changed.drop_last() == amounts.drop_last().update(i, amount));
    }
}

/// What a problem still has to go through before it owes nothing: its
/// withheld verdicts, those of runs still being judged counted twice.
pub open spec fn problem_debt(p: ProblemView) -> nat {
    p.pending.len() + waits(p.pending)
}

/// The debts of `problems`, in their order.
pub open spec fn problem_debts(problems: Seq<ProblemView>) -> Seq<nat> {
    problems.map_values(|p: ProblemView| problem_debt(p))
}

/// The debt of a team: that of its problems together.
pub open spec fn team_debt(team: TeamView) -> nat {
    total(problem_debts(team.problems))
}

/// The debts of `teams`, in their order.
pub open spec fn team_debts(teams: Seq<TeamView>) -> Seq<nat> {
    teams.map_values(|t: TeamView| team_debt(t))
}

/// A disclosure lowers the debt of a team that owes one, and leaves any
/// other team as it is.
pub proof fn lemma_team_reveal_pays(team: TeamView, cost: int)
    ensures
        team.waiting() ==> team_debt(team.revealed(cost)) < team_debt(team),
        !team.waiting() ==> team.revealed(cost) == team,
{
    if team.waiting() {
        let k = first_waiting(team.problems);
        lemma_first_waiting_parts(team.problems);
        lemma_reveal_makes_progress(team.problems[k], cost);
        let debts = problem_debts(team.problems);
        lemma_total_update(debts, k, problem_debt(team.problems[k].revealed(cost)));
        assert(problem_debts(team.revealed(cost).problems) == debts.update(
            k,
            problem_debt(team.problems[k].revealed(cost)),
        ));
    }
}

/// A contest together with the queue of the teams that owe a disclosure.
pub struct RevealState {
    pub contest: ContestView,
    /// The queued scores in ranking order; the next to leave is the last.
    pub queue: Seq<ScoreView>,
}

impl RevealState {
    /// The contest is well-formed and the queue stands in ranking order.
    pub open spec fn wf(self) -> bool {
        &&& self.contest.wf()
        &&& in_rank_order(self.queue)
    }

    /// A disclosure can be made: the queue has an entry and the roster
    /// has the team that its last entry names.
    pub open spec fn can_step(self) -> bool {
        can_step(self.queue, self.contest)
    }

    /// The state after one disclosure, the standings left as they were.
    /// Nothing changes where no disclosure can be made.
    pub open spec fn stepped(self) -> RevealState {
        RevealState {
            contest: contest_stepped(self.queue, self.contest),
            queue: queue_stepped(self.queue, self.contest),
        }
    }

    /// The next disclosure cannot be made: the queue has an entry, and its
    /// last entry names a team that the roster does not have.
    pub open spec fn blocked(self) -> bool {
        self.queue.len() > 0 && !self.can_step()
    }

    /// None of the first `n` disclosures meets an entry that names a team
    /// the roster does not have. A state that is blocked stays as it is, so
    /// it is enough that the state before the last of them is not blocked.
    pub open spec fn clear_for(self, n: nat) -> bool {
        n == 0 || !self.stepped_n((n - 1) as nat).blocked()
    }

    /// The login named by the entry that the first `n` disclosures stop
    /// at, where they are not clear.
    pub open spec fn blocking_login(self, n: nat) -> Seq<char> {
        self.stepped_n(n).queue.last().team_login
    }

    /// The state after `n` disclosures, or as many as can be made.
    pub open spec fn stepped_n(self, n: nat) -> RevealState
        decreases n,
    {
        if n == 0 {
            self
        } else {
            self.stepped_n((n - 1) as nat).stepped()
        }
    }

    /// The state after one disclosure and new standings. Nothing changes,
    /// the standings neither, where no disclosure can be made.
    pub open spec fn revealed_one(self) -> RevealState {
        if self.can_step() {
            self.stepped().ranked()
        } else {
            self
        }
    }

    /// The state after `n` times one disclosure and new standings.
    pub open spec fn revealed_n(self, n: nat) -> RevealState
        decreases n,
    {
        if n == 0 {
            self
        } else {
            self.revealed_n((n - 1) as nat).revealed_one()
        }
    }

    /// The login that the last entry of the queue naming a team unknown
    /// to the roster names.
    pub open spec fn last_unknown_login(self) -> Seq<char> {
        self.queue[self.last_unknown()].team_login
    }

    /// The state after a feed has been taken in: the runs fed to the
    /// contest, every team that then owes a disclosure queued, and the
    /// standings computed.
    pub open spec fn loaded(self, runs: Seq<RunView>, intake: Intake) -> RevealState {
        let fed = self.contest.fed(runs, intake);
        RevealState { contest: fed.ranked(), queue: seeded(self.queue, fed.teams) }
    }

    /// The state with the standings computed anew.
    pub open spec fn ranked(self) -> RevealState {
        RevealState { contest: self.contest.ranked(), ..self }
    }

    /// What is left to go through: the debts of all teams, and the entries
    /// of the queue.
    pub open spec fn debt(self) -> nat {
        total(team_debts(self.contest.teams)) + self.queue.len()
    }

    /// The state after every disclosure that can be made has been made.
    pub open spec fn drained(self) -> RevealState
        decreases self.debt(),
    {
        if self.can_step() {
            proof {
                lemma_step_pays(self);
            }
            self.stepped().drained()
        } else {
            self
        }
    }

    /// The index of the last entry of the queue that names a team the
    /// roster does not have, or -1 where every entry names a team of the
    /// roster.
    pub open spec fn last_unknown(self) -> int
        decreases self.queue.len(),
    {
        if self.queue.len() == 0 {
            -1
        } else if !self.contest.has(self.queue.last().team_login) {
            self.queue.len() - 1
        } else {
            (RevealState { queue: self.queue.drop_last(), ..self }).last_unknown()
        }
    }

    /// Every entry of the queue names a team of the roster.
    pub open spec fn queue_known(self) -> bool {
        self.last_unknown() == -1
    }

    /// The entry at index `i` is the present score of a team that owes a
    /// disclosure.
    pub open spec fn live(self, i: int) -> bool {
        let login = self.queue[i].team_login;
        let k = self.contest.index_of(login);
        &&& self.contest.has(login)
        &&& self.contest.teams[k].waiting()
        &&& self.contest.teams[k].score() == self.queue[i]
    }

    /// The queue holds, once each, the present scores of the teams that
    /// owe a disclosure, and nothing else.
    pub open spec fn synced(self) -> bool {
        &&& self.queue.no_duplicates()
        &&& forall|i: int| 0 <= i < self.queue.len() ==> #[trigger] self.live(i)
        &&& forall|k: int|
            0 <= k < self.contest.teams.len() && (#[trigger] self.contest.teams[k]).waiting()
                ==> self.queue.contains(self.contest.teams[k].score())
    }

    /// Each team of `self` is the team of `start` after every disclosure it
    /// owed, its placement apart.
    pub open spec fn all_disclosed_of(self, start: RevealState) -> bool {
        &&& self.contest.teams.len() == start.contest.teams.len()
        &&& forall|k: int|
            0 <= k < start.contest.teams.len() ==> (#[trigger] self.contest.teams[k])
                == (TeamView {
                placement: self.contest.teams[k].placement,
                ..start.contest.teams[k].drained(start.contest.penalty_per_wrong_answer)
            })
    }

    /// The team that the last entry of the queue names owes a disclosure
    /// and is placed behind every other team that owes one.
    pub open spec fn worst_first(self) -> bool {
        let k = next_team(self.queue, self.contest);
        &&& self.contest.teams[k].waiting()
        &&& forall|j: int|
            0 <= j < self.contest.teams.len() && (#[trigger] self.contest.teams[j]).waiting()
                ==> self.contest.teams[j].placement <= self.contest.teams[k].placement
    }

    /// The state is well-formed, the queue is in step with the teams, and
    /// the standings are up to date.
    pub open spec fn coherent(self) -> bool {
        &&& self.wf()
        &&& self.synced()
        &&& self.contest.is_ranked()
    }
}

/// A disclosure lowers what is left to go through.
pub proof fn lemma_step_pays(s: RevealState)
    requires
        s.can_step(),
    ensures
        s.stepped().debt() < s.debt(),
{
    let k = next_team(s.queue, s.contest);
    lemma_rank_bounds(logins(s.contest.teams), s.queue.last().team_login);
    let team = s.contest.teams[k];
    let cost = s.contest.penalty_per_wrong_answer;
    lemma_team_reveal_pays(team, cost);
    let debts = team_debts(s.contest.teams);
    lemma_total_update(debts, k, team_debt(team.revealed(cost)));
    assert(team_debts(s.stepped().contest.teams) == debts.update(
        k,
        team_debt(team.revealed(cost)),
    ));
    if team.revealed(cost).waiting() {
        lemma_score_rank_bounds(s.queue.drop_last(), team.revealed(cost).score());
    }
}

/// An index behind which every entry names a team of the roster, and
/// which is -1 or the index of an entry that names a team the roster does
/// not have, is the last such index.
pub proof fn lemma_last_unknown_is(s: RevealState, k: int)
    requires
        -1 <= k < s.queue.len(),
        forall|i: int| k < i < s.queue.len() ==> s.contest.has((#[trigger] s.queue[i]).team_login),
        k >= 0 ==> !s.contest.has(s.queue[k].team_login),
    ensures
        s.last_unknown() == k,
    decreases s.queue.len(),
{
    if s.queue.len() > 0 && k < s.queue.len() - 1 {
        let rest = RevealState { queue: s.queue.drop_last(), ..s };
        assert(forall|i: int| 0 <= i < rest.queue.len() ==> #[trigger] rest.queue[i] == s.queue[i]);
        lemma_last_unknown_is(rest, k);
    }
}

/// Where every entry of the queue names a team of the roster, each of
/// them does.
pub proof fn lemma_queue_known(s: RevealState)
    requires
        s.queue_known(),
    ensures
        forall|i: int| 0 <= i < s.queue.len() ==> s.contest.has((#[trigger] s.queue[i]).team_login),
    decreases s.queue.len(),
{
    if s.queue.len() > 0 {
        let rest = RevealState { queue: s.queue.drop_last(), ..s };
        lemma_queue_known(rest);
        assert forall|i: int| 0 <= i < s.queue.len() implies s.contest.has(
            (#[trigger] s.queue[i]).team_login,
        ) by {
            if i < s.queue.len() - 1 {
                assert(rest.queue[i] == s.queue[i]);
            }
        }
    }
}

/// A disclosure keeps a well-formed state well-formed, changes no login,
/// and leaves every entry of the queue naming a team of the roster if
/// every entry did.
pub proof fn lemma_step_keeps_wf(s: RevealState)
    requires
        s.wf(),
    ensures
        s.stepped().wf(),
        logins(s.stepped().contest.teams) == logins(s.contest.teams),
        s.stepped().contest == (ContestView { teams: s.stepped().contest.teams, ..s.contest }),
        s.queue_known() ==> s.stepped().queue_known(),
{
    let next = s.stepped();
    if s.can_step() {
        let k = next_team(s.queue, s.contest);
        lemma_rank_parts(logins(s.contest.teams), s.queue.last().team_login);
        let team = s.contest.teams[k];
        let init = s.queue.drop_last();
        lemma_first_waiting_parts(team.problems);
        assert(team.wf());
        let cost = s.contest.penalty_per_wrong_answer;
        assert(team.revealed(cost).wf());
        assert(logins(next.contest.teams) =~= logins(s.contest.teams));
        assert forall|i: int| 0 <= i < next.contest.teams.len() implies (
        #[trigger] next.contest.teams[i]).wf() by {
            if i != k {
                assert(next.contest.teams[i] == s.contest.teams[i]);
                assert(s.contest.teams[i].wf());
            }
        }
        assert(in_rank_order(init)) by {
            assert forall|i: int, j: int| 0 <= i < j < init.len() implies !(
            #[trigger] init[j]).before(#[trigger] init[i]) by {
                assert(init[i] == s.queue[i]);
                assert(init[j] == s.queue[j]);
            }
        }
        lemma_pushed(init, team.revealed(cost).score());
        if s.queue_known() {
            lemma_queue_known(s);
            assert forall|i: int| 0 <= i < next.queue.len() implies next.contest.has(
                (#[trigger] next.queue[i]).team_login,
            ) by {
                let x = next.queue[i];
                assert(next.queue.contains(x));
                if init.contains(x) {
                    let j = choose|j: int| 0 <= j < init.len() && init[j] == x;
                    assert(s.queue[j] == x);
                }
            }
            lemma_last_unknown_is(next, -1);
        }
    }
}

/// Putting a score that a sequence does not have in at its rank keeps the
/// sequence free of duplicates.
pub proof fn lemma_pushed_distinct(scores: Seq<ScoreView>, s: ScoreView)
    requires
        scores.no_duplicates(),
        !scores.contains(s),
    ensures
        pushed(scores, s).no_duplicates(),
{
    let k = score_rank(scores, s);
    let all = pushed(scores, s);
    lemma_score_rank_bounds(scores, s);
    assert forall|i: int, j: int| 0 <= i < all.len() && 0 <= j < all.len() && i != j implies all[i]
        != all[j] by {
        let a = if i < k { i } else { i - 1 };
        let b = if j < k { j } else { j - 1 };
        if i == k {
            assert(all[j] == scores[b]);
            assert(scores.contains(scores[b]));
        } else if j == k {
            assert(all[i] == scores[a]);
            assert(scores.contains(scores[a]));
        } else {
            assert(all[i] == scores[a]);
            assert(all[j] == scores[b]);
        }
    }
}

/// In a coherent state with something queued, the team that the next
/// disclosure is for is the worst-placed of all teams that owe one: the
/// reveal goes worst first.
pub proof fn lemma_worst_first(s: RevealState)
    requires
        s.coherent(),
        s.queue.len() > 0,
    ensures
        s.can_step(),
        s.worst_first(),
{
    let last = s.queue.len() - 1;
    let k = next_team(s.queue, s.contest);
    assert(s.live(last));
    lemma_rank_parts(logins(s.contest.teams), s.queue.last().team_login);
    assert forall|j: int|
        0 <= j < s.contest.teams.len() && (
        #[trigger] s.contest.teams[j]).waiting() implies s.contest.teams[j].placement
        <= s.contest.teams[k].placement by {
        if j != k {
            let mine = s.contest.teams[j].score();
            lemma_own_index(s.contest, k);
            assert(s.queue.contains(mine));
            let i = choose|i: int| 0 <= i < s.queue.len() && s.queue[i] == mine;
            assert(i != last);
            assert(!s.queue[last].before(s.queue[i]));
            lemma_score_total(mine, s.queue[last]);
        }
    }
}

/// A disclosure keeps the queue in step with the teams.
pub proof fn lemma_step_keeps_synced(s: RevealState)
    requires
        s.wf(),
        s.synced(),
    ensures
        s.stepped().synced(),
{
    let next = s.stepped();
    lemma_step_keeps_wf(s);
    if s.queue.len() > 0 {
        let last = s.queue.len() - 1;
        assert(s.live(last));
        let k = next_team(s.queue, s.contest);
        let team = s.contest.teams[k];
        let fresh = team.revealed(s.contest.penalty_per_wrong_answer);
        let init = s.queue.drop_last();
        lemma_rank_parts(logins(s.contest.teams), s.queue.last().team_login);
        lemma_own_index(s.contest, k);
        assert(next.contest.teams[k] == fresh);
        assert(fresh.login == team.login);
        // No earlier entry is of the team whose turn it is.
        assert forall|i: int| 0 <= i < init.len() implies (#[trigger] init[i]).team_login
            != team.login && s.queue[i] == init[i] by {
            assert(s.live(i));
            let m = s.contest.index_of(s.queue[i].team_login);
            if s.queue[i].team_login == team.login {
                assert(s.queue[i] == s.queue[last]);
            }
        }
        assert(init.no_duplicates());
        if init.contains(fresh.score()) {
            let i = choose|i: int| 0 <= i < init.len() && init[i] == fresh.score();
            assert(init[i].team_login != team.login);
        }
        lemma_pushed(init, fresh.score());
        if fresh.waiting() {
            lemma_pushed_distinct(init, fresh.score());
        }
        assert forall|i: int| 0 <= i < next.queue.len() implies #[trigger] next.live(i) by {
            let x = next.queue[i];
            assert(next.queue.contains(x));
            if init.contains(x) {
                let j = choose|j: int| 0 <= j < init.len() && init[j] == x;
                assert(s.live(j));
                let m = s.contest.index_of(x.team_login);
                lemma_rank_parts(logins(s.contest.teams), x.team_login);
                assert(logins(s.contest.teams)[m] == s.contest.teams[m].login);
                assert(m != k);
                assert(next.contest.teams[m] == s.contest.teams[m]);
            } else {
                assert(x == fresh.score());
            }
        }
        assert forall|m: int|
            0 <= m < next.contest.teams.len() && (
            #[trigger] next.contest.teams[m]).waiting() implies next.queue.contains(
            next.contest.teams[m].score(),
        ) by {
            if m != k {
                let mine = s.contest.teams[m].score();
                assert(next.contest.teams[m] == s.contest.teams[m]);
                assert(s.queue.contains(mine));
                let i = choose|i: int| 0 <= i < s.queue.len() && s.queue[i] == mine;
                assert(i != last);
                assert(init[i] == mine);
                assert(init.contains(mine));
            }
        }
    }
}

/// Computing the standings anew keeps the queue in step with the teams
/// and brings the standings up to date.
pub proof fn lemma_ranked_coherent(s: RevealState)
    requires
        s.wf(),
        s.synced(),
    ensures
        s.ranked().coherent(),
{
    let next = s.ranked();
    lemma_ranked(s.contest);
    assert(logins(next.contest.teams) =~= logins(s.contest.teams));
    assert forall|i: int| 0 <= i < next.queue.len() implies #[trigger] next.live(i) by {
        assert(s.live(i));
        lemma_rank_parts(logins(s.contest.teams), s.queue[i].team_login);
    }
    assert forall|k: int|
        0 <= k < next.contest.teams.len() && (
        #[trigger] next.contest.teams[k]).waiting() implies next.queue.contains(
        next.contest.teams[k].score(),
    ) by {
        assert(s.contest.teams[k].waiting());
    }
}

/// One disclosure followed by new standings takes a coherent state to a
/// coherent state, so the reveal goes worst first step after step.
pub proof fn lemma_reveal_keeps_coherent(s: RevealState)
    requires
        s.coherent(),
    ensures
        s.stepped().ranked().coherent(),
{
    lemma_step_keeps_wf(s);
    lemma_step_keeps_synced(s);
    lemma_ranked_coherent(s.stepped());
}

/// Making every disclosure that can be made, from a state whose queue is
/// in step with the teams, empties the queue and leaves each team as it
/// is after every disclosure it owed: each problem disclosed until it
/// owes nothing, whatever the order in which the teams had their turns.
pub proof fn lemma_drained(s: RevealState)
    requires
        s.wf(),
        s.synced(),
    ensures
        s.drained().wf(),
        s.drained().synced(),
        s.drained().queue.len() == 0,
        s.drained().contest == (ContestView { teams: s.drained().contest.teams, ..s.contest }),
        s.drained().contest.teams.len() == s.contest.teams.len(),
        forall|k: int|
            0 <= k < s.contest.teams.len() ==> (#[trigger] s.drained().contest.teams[k])
                == s.contest.teams[k].drained(s.contest.penalty_per_wrong_answer),
        forall|k: int|
            0 <= k < s.contest.teams.len() ==> !(#[trigger] s.drained().contest.teams[k]).waiting(),
    decreases s.debt(),
{
    let cost = s.contest.penalty_per_wrong_answer;
    if s.queue.len() > 0 {
        assert(s.live(s.queue.len() - 1));
    }
    if s.can_step() {
        let next = s.stepped();
        let k = next_team(s.queue, s.contest);
        lemma_rank_parts(logins(s.contest.teams), s.queue.last().team_login);
        lemma_step_pays(s);
        lemma_step_keeps_wf(s);
        lemma_step_keeps_synced(s);
        lemma_drained(next);
        assert(s.drained() == next.drained());
        lemma_revealed_drains_alike(s.contest.teams[k], cost);
        assert forall|i: int| 0 <= i < s.contest.teams.len() implies (
        #[trigger] s.drained().contest.teams[i]) == s.contest.teams[i].drained(cost) by {
            if i != k {
                assert(next.contest.teams[i] == s.contest.teams[i]);
            }
        }
    } else {
        assert(s.queue.len() == 0);
        assert forall|i: int| 0 <= i < s.contest.teams.len() implies {
            &&& (#[trigger] s.contest.teams[i]) == s.contest.teams[i].drained(cost)
            &&& !s.contest.teams[i].waiting()
        } by {
            if s.contest.teams[i].waiting() {
                assert(s.queue.contains(s.contest.teams[i].score()));
            }
            lemma_revealed_drains_alike(s.contest.teams[i], cost);
        }
    }
}

/// Any number of disclosures keeps a state well-formed and in step.
pub proof fn lemma_steps_keep_synced(s: RevealState, n: nat)
    requires
        s.wf(),
    ensures
        s.stepped_n(n).wf(),
        s.queue_known() ==> s.stepped_n(n).queue_known(),
        s.synced() ==> s.stepped_n(n).synced(),
    decreases n,
{
    if n > 0 {
        let before = s.stepped_n((n - 1) as nat);
        lemma_steps_keep_synced(s, (n - 1) as nat);
        lemma_step_keeps_wf(before);
        if s.synced() {
            lemma_step_keeps_synced(before);
        }
    }
}

/// A blocked state stays as it is, whatever number of disclosures is
/// tried.
pub proof fn lemma_steps_on_blocked(s: RevealState, n: nat)
    requires
        s.blocked(),
    ensures
        s.stepped_n(n) == s,
    decreases n,
{
    if n > 0 {
        lemma_steps_on_blocked(s, (n - 1) as nat);
    }
}

/// Where every entry of the queue names a team of the roster, any number
/// of disclosures is clear.
pub proof fn lemma_known_is_clear(s: RevealState, n: nat)
    requires
        s.wf(),
        s.queue_known(),
    ensures
        s.clear_for(n),
{
    if n > 0 {
        let before = s.stepped_n((n - 1) as nat);
        lemma_steps_keep_synced(s, (n - 1) as nat);
        lemma_queue_known(before);
        if before.queue.len() > 0 {
            assert(before.contest.has(before.queue[before.queue.len() - 1].team_login));
        }
    }
}

/// Once the queue is empty, further disclosures change nothing.
pub proof fn lemma_steps_on_empty(s: RevealState, n: nat)
    requires
        s.queue.len() == 0,
    ensures
        s.stepped_n(n) == s,
    decreases n,
{
    if n > 0 {
        lemma_steps_on_empty(s, (n - 1) as nat);
    }
}

/// Disclosures made one after another add up.
pub proof fn lemma_steps_add(s: RevealState, a: nat, b: nat)
    ensures
        s.stepped_n(a).stepped_n(b) == s.stepped_n(a + b),
    decreases b,
{
    if b > 0 {
        lemma_steps_add(s, a, (b - 1) as nat);
    }
}

/// The standings play no part in a disclosure: computing them before it
/// as well as after it changes nothing.
pub proof fn lemma_ranking_commutes(s: RevealState)
    requires
        s.wf(),
    ensures
        s.ranked().stepped().ranked() == s.stepped().ranked(),
{
    let a = s.ranked();
    lemma_ranked(s.contest);
    assert(logins(a.contest.teams) =~= logins(s.contest.teams));
    if s.can_step() {
        let k = next_team(s.queue, s.contest);
        lemma_rank_parts(logins(s.contest.teams), s.queue.last().team_login);
        let x = a.stepped().contest;
        let y = s.stepped().contest;
        let cost = s.contest.penalty_per_wrong_answer;
        assert(a.contest.teams[k].revealed(cost) == (TeamView {
            placement: a.contest.teams[k].placement,
            ..s.contest.teams[k].revealed(cost)
        }));
        assert(a.stepped().queue == s.stepped().queue);
        assert forall|i: int| 0 <= i < x.teams.len() implies (#[trigger] x.teams[i]).score()
            == y.teams[i].score() && x.teams[i] == (TeamView {
            placement: x.teams[i].placement,
            ..y.teams[i]
        }) by {
            if i != k {
                assert(x.teams[i] == a.contest.teams[i]);
                assert(y.teams[i] == s.contest.teams[i]);
            }
        }
        assert(team_scores(x.teams) =~= team_scores(y.teams));
        assert(x.ranked().teams =~= y.ranked().teams);
        assert(score_logins(x.order()) == score_logins(y.order()));
    } else {
        assert(team_scores(a.contest.teams) =~= team_scores(s.contest.teams));
        assert(a.contest.ranked().teams =~= s.contest.ranked().teams);
    }
}

/// Where the first `n` disclosures are clear, so are the first `m` of
/// them.
pub proof fn lemma_clear_shorter(s: RevealState, n: nat, m: nat)
    requires
        s.clear_for(n),
        m <= n,
    ensures
        s.clear_for(m),
{
    if 0 < m < n {
        let early = s.stepped_n((m - 1) as nat);
        if early.blocked() {
            lemma_steps_on_blocked(early, (n - m) as nat);
            lemma_steps_add(s, (m - 1) as nat, (n - m) as nat);
            assert((m - 1) as nat + (n - m) as nat == (n - 1) as nat);
        }
    }
}

/// Disclosing `n` verdicts and computing the standings once at the end
/// gives what `n` single disclosures give, each followed by new
/// standings, where none of them meets an entry that names a team the
/// roster does not have. This holds once something is queued; on an
/// empty queue a single disclosure leaves even the standings as they
/// are.
pub proof fn lemma_many_is_one_by_one(s: RevealState, n: nat)
    requires
        s.wf(),
        s.clear_for(n),
        s.queue.len() > 0,
        n >= 1,
    ensures
        s.stepped_n(n).ranked() == s.revealed_n(n),
    decreases n,
{
    lemma_clear_shorter(s, n, 1);
    assert(s.stepped_n(0) == s);
    assert(s.can_step());
    if n == 1 {
        assert(s.revealed_n(0) == s);
        assert(s.stepped_n(1) == s.stepped());
        assert(s.revealed_n(1) == s.revealed_one());
    } else {
        let m = (n - 1) as nat;
        let before = s.stepped_n(m);
        let ranked = before.ranked();
        lemma_clear_shorter(s, n, m);
        lemma_many_is_one_by_one(s, m);
        lemma_steps_keep_synced(s, m);
        lemma_ranked(before.contest);
        assert(logins(ranked.contest.teams) =~= logins(before.contest.teams));
        assert(s.revealed_n(n) == ranked.revealed_one());
        assert(s.stepped_n(n) == before.stepped());
        assert(!before.blocked());
        if before.queue.len() > 0 {
            assert(ranked.can_step());
            lemma_ranking_commutes(before);
        } else {
            assert(!ranked.can_step());
            assert(!before.can_step());
        }
    }
}

/// Seeding an empty queue from a contest leaves the queue in step with
/// the teams.
pub proof fn lemma_seeded_synced(c: ContestView)
    requires
        c.wf(),
    ensures
        (RevealState { contest: c, queue: seeded(Seq::empty(), c.teams) }).wf(),
        (RevealState { contest: c, queue: seeded(Seq::empty(), c.teams) }).synced(),
{
    lemma_seeded_prefix(c, c.teams.len() as int);
    assert(c.teams.take(c.teams.len() as int) == c.teams);
    let s = RevealState { contest: c, queue: seeded(Seq::empty(), c.teams) };
    assert forall|i: int| 0 <= i < s.queue.len() implies #[trigger] s.live(i) by {
        assert(s.queue.contains(s.queue[i]));
        let m = choose|m: int|
            0 <= m < c.teams.len() && c.teams[m].waiting() && c.teams[m].score() == s.queue[i];
        lemma_own_index(c, m);
    }
}

/// The queue seeded from the first `n` teams is in ranking order, free of
/// duplicates, and holds just the scores of those among them that owe a
/// disclosure.
pub proof fn lemma_seeded_prefix(c: ContestView, n: int)
    requires
        c.wf(),
        0 <= n <= c.teams.len(),
    ensures
        in_rank_order(seeded(Seq::empty(), c.teams.take(n))),
        seeded(Seq::empty(), c.teams.take(n)).no_duplicates(),
        forall|x: ScoreView|
            seeded(Seq::empty(), c.teams.take(n)).contains(x) <==> exists|m: int|
                0 <= m < n && (#[trigger] c.teams[m]).waiting() && c.teams[m].score() == x,
    decreases n,
{
    let queue = seeded(Seq::<ScoreView>::empty(), c.teams.take(n));
    if n == 0 {
        assert(queue == Seq::<ScoreView>::empty());
    } else {
        let before = seeded(Seq::<ScoreView>::empty(), c.teams.take(n - 1));
        let team = c.teams[n - 1];
        lemma_seeded_prefix(c, n - 1);
        assert(c.teams.take(n).drop_last() == c.teams.take(n - 1));
        assert(c.teams.take(n).last() == team);
        lemma_pushed(before, team.score());
        if team.waiting() {
            if before.contains(team.score()) {
                let m = choose|m: int|
                    0 <= m < n - 1 && c.teams[m].waiting() && c.teams[m].score() == team.score();
                lemma_own_index(c, n - 1);
            }
            lemma_pushed_distinct(before, team.score());
        }
        assert forall|x: ScoreView| queue.contains(x) <==> exists|m: int|
            0 <= m < n && (#[trigger] c.teams[m]).waiting() && c.teams[m].score() == x by {
            if queue.contains(x) {
                if before.contains(x) {
                    let m = choose|m: int|
                        0 <= m < n - 1 && c.teams[m].waiting() && c.teams[m].score() == x;
                    assert(0 <= m < n && c.teams[m].waiting() && c.teams[m].score() == x);
                } else {
                    assert(c.teams[n - 1].waiting() && c.teams[n - 1].score() == x);
                }
            }
            if exists|m: int|
                0 <= m < n && (#[trigger] c.teams[m]).waiting() && c.teams[m].score() == x {
                let m = choose|m: int|
                    0 <= m < n && (#[trigger] c.teams[m]).waiting() && c.teams[m].score() == x;
                if m < n - 1 {
                    assert(before.contains(x));
                }
            }
        }
    }
}

/// The last entry that names an unknown team, if there is one, is an entry
/// of the queue.
pub proof fn lemma_unknown_bounds(s: RevealState)
    ensures
        -1 <= s.last_unknown() < s.queue.len(),
        s.last_unknown() >= 0 ==> !s.contest.has(s.queue[s.last_unknown()].team_login),
    decreases s.queue.len(),
{
    if s.queue.len() > 0 && s.contest.has(s.queue.last().team_login) {
        let rest = RevealState { queue: s.queue.drop_last(), ..s };
        lemma_unknown_bounds(rest);
        if rest.last_unknown() >= 0 {
            assert(rest.queue[rest.last_unknown()] == s.queue[rest.last_unknown()]);
        }
    }
}

} // verus!
