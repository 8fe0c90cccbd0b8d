//! The roster of a contest and its standings.

use vstd::prelude::*;
use super::lexical::{ascending, lemma_text_irreflexive, text_before};
use super::ranking::{
    in_rank_order, lemma_member_rank, lemma_score_rank_parts, lemma_sorted_distinct,
    lemma_sorted_scores, locate_score, push_score, score_rank, score_views, sorted_scores,
};
use super::run::{RunTuple, RunView};
use super::score::{lemma_score_total, Score, ScoreView};
use super::string_map::{holds, lemma_insert_keeps_ascending, lemma_rank_parts, rank, StringMap};
use super::team::{Team, TeamView};

verus! {

/// What can go wrong in the engine.
#[derive(Debug)]
pub enum ContestError {
    /// A run or a ranking named a login that the roster does not have.
    UnmatchedTeam(String),
}

/// The views of `teams`, in their order.
pub open spec fn team_views(teams: Seq<Team>) -> Seq<TeamView> {
    teams.map_values(|t: Team| t@)
}

/// The logins of `teams`, in their order.
pub open spec fn logins(teams: Seq<TeamView>) -> Seq<Seq<char>> {
    teams.map_values(|t: TeamView| t.login)
}

/// The scores of `teams`, in their order.
pub open spec fn team_scores(teams: Seq<TeamView>) -> Seq<ScoreView> {
    teams.map_values(|t: TeamView| t.score())
}

/// The logins of `scores`, in their order.
pub open spec fn score_logins(scores: Seq<ScoreView>) -> Seq<Seq<char>> {
    scores.map_values(|s: ScoreView| s.team_login)
}

/// `teams` with `team` under its login: in place of the team that had the
/// login, or as a new member at the login's rank.
pub open spec fn enrolled(teams: Seq<TeamView>, team: TeamView) -> Seq<TeamView> {
    let k = rank(logins(teams), team.login);
    if holds(logins(teams), team.login) {
        teams.update(k, team)
    } else {
        teams.insert(k, team)
    }
}

/// The roster made of `teams` enrolled in turn.
pub open spec fn roster(teams: Seq<TeamView>) -> Seq<TeamView>
    decreases teams.len(),
{
    if teams.len() == 0 {
        Seq::empty()
    } else {
        enrolled(roster(teams.drop_last()), teams.last())
    }
}

/// The team that stands under `login` in `teams`, which are in the order
/// of their logins.
pub open spec fn member(teams: Seq<TeamView>, login: Seq<char>) -> TeamView {
    teams[rank(logins(teams), login)]
}

/// No team after the one at index `i` has its login.
pub open spec fn latest(teams: Seq<TeamView>, i: int) -> bool {
    forall|j: int| i < j < teams.len() ==> (#[trigger] teams[j]).login != teams[i].login
}

/// Enrolling a team keeps the teams in the strict order of their logins,
/// adds its login to theirs and no other, puts the team under its login,
/// and leaves every team of another login where it was.
pub proof fn lemma_enrolled(teams: Seq<TeamView>, team: TeamView)
    requires
        ascending(logins(teams)),
    ensures
        ascending(logins(enrolled(teams, team))),
        forall|login: Seq<char>|
            logins(enrolled(teams, team)).contains(login) <==> (logins(teams).contains(login)
                || login == team.login),
        member(enrolled(teams, team), team.login) == team,
        forall|i: int|
            0 <= i < teams.len() && (#[trigger] teams[i]).login != team.login ==> member(
                enrolled(teams, team),
                teams[i].login,
            ) == teams[i],
{
    let keys = logins(teams);
    let k = rank(keys, team.login);
    let more = enrolled(teams, team);
    let new_keys = logins(more);
    lemma_rank_parts(keys, team.login);
    if holds(keys, team.login) {
        assert(new_keys =~= keys);
    } else {
        lemma_insert_keeps_ascending(keys, team.login);
        assert(new_keys =~= keys.insert(k, team.login));
    }
    lemma_rank_parts(new_keys, team.login);
    assert(new_keys[k] == team.login);
    assert forall|i: int|
        0 <= i < teams.len() && (#[trigger] teams[i]).login != team.login implies member(
        more,
        teams[i].login,
    ) == teams[i] by {
        let at = if holds(keys, team.login) || i < k {
            i
        } else {
            i + 1
        };
        assert(keys[i] == teams[i].login);
        assert(new_keys[at] == teams[i].login);
        lemma_rank_parts(new_keys, teams[i].login);
        assert(more[at] == teams[i]);
    }
    assert forall|login: Seq<char>| new_keys.contains(login) <==> (keys.contains(login) || login
        == team.login) by {
        if new_keys.contains(login) {
            let i = choose|i: int| 0 <= i < new_keys.len() && new_keys[i] == login;
            if login != team.login {
                let from = if holds(keys, team.login) || i < k {
                    i
                } else {
                    i - 1
                };
                assert(keys[from] == login);
            }
        }
        if keys.contains(login) {
            let i = choose|i: int| 0 <= i < keys.len() && keys[i] == login;
            let at = if holds(keys, team.login) || i < k {
                i
            } else {
                i + 1
            };
            assert(new_keys[at] == login);
        }
    }
}

/// The roster made of `teams` stands in the strict order of its logins,
/// has the logins given and no other, and has under each login the last
/// team given with it.
pub proof fn lemma_roster(teams: Seq<TeamView>)
    ensures
        ascending(logins(roster(teams))),
        forall|login: Seq<char>|
            logins(roster(teams)).contains(login) <==> logins(teams).contains(login),
        forall|i: int|
            0 <= i < teams.len() && #[trigger] latest(teams, i) ==> member(
                roster(teams),
                teams[i].login,
            ) == teams[i],
    decreases teams.len(),
{
    if teams.len() > 0 {
        let init = teams.drop_last();
        let last = teams.last();
        let before = roster(init);
        let all = roster(teams);
        lemma_roster(init);
        lemma_enrolled(before, last);
        assert forall|login: Seq<char>| logins(all).contains(login) <==> logins(teams).contains(
            login,
        ) by {
            if logins(init).contains(login) {
                let i = choose|i: int| 0 <= i < init.len() && logins(init)[i] == login;
                assert(logins(teams)[i] == login);
            }
            if logins(teams).contains(login) {
                let i = choose|i: int| 0 <= i < teams.len() && logins(teams)[i] == login;
                if i < init.len() {
                    assert(logins(init)[i] == login);
                }
            }
            assert(logins(teams)[teams.len() - 1] == last.login);
        }
        assert forall|i: int| 0 <= i < teams.len() && #[trigger] latest(teams, i) implies member(
            all,
            teams[i].login,
        ) == teams[i] by {
            if i < init.len() {
                let login = teams[i].login;
                assert(teams[teams.len() - 1].login != login);
                assert(init[i] == teams[i]);
                assert(latest(init, i)) by {
                    assert forall|j: int| i < j < init.len() implies (#[trigger] init[j]).login
                        != init[i].login by {
                        assert(init[j] == teams[j]);
                    }
                }
                assert(logins(init)[i] == login);
                assert(logins(init).contains(login));
                assert(logins(before).contains(login));
                lemma_rank_parts(logins(before), login);
                let at = rank(logins(before), login);
                assert(logins(before)[at] == before[at].login);
                assert(member(all, before[at].login) == before[at]);
            }
        }
    }
}

/// The mathematical state of a contest.
pub struct ContestView {
    pub contest_name: Seq<char>,
    /// The teams, ascending by login.
    pub teams: Seq<TeamView>,
    pub current_time: int,
    pub maximum_time: int,
    pub score_freeze_time: int,
    /// The minutes charged for every rejected run.
    pub penalty_per_wrong_answer: int,
    /// The logins in the order of the last ranking, best first.
    pub score_board: Seq<Seq<char>>,
    pub number_problems: nat,
}

impl ContestView {
    /// The teams are well-formed and stand in the strict order of their
    /// logins, so no two share a login.
    pub open spec fn wf(self) -> bool {
        &&& ascending(logins(self.teams))
        &&& forall|i: int| 0 <= i < self.teams.len() ==> (#[trigger] self.teams[i]).wf()
    }

    /// The roster has a team with this login.
    pub open spec fn has(self, login: Seq<char>) -> bool {
        holds(logins(self.teams), login)
    }

    /// Where the team with this login stands in the roster, or would.
    pub open spec fn index_of(self, login: Seq<char>) -> int {
        rank(logins(self.teams), login)
    }

    /// The contest after the verdict of `run` has been made known, a
    /// rejected run costing what the contest charges for one. A run of
    /// an unknown team changes nothing.
    pub open spec fn judged(self, run: RunView) -> ContestView {
        let k = self.index_of(run.team_login);
        if self.has(run.team_login) {
            ContestView {
                teams: self.teams.update(
                    k,
                    self.teams[k].judged(run.prob, run.answer, self.penalty_per_wrong_answer),
                ),
                ..self
            }
        } else {
            self
        }
    }

    /// The contest after the verdict of `run` has been taken in but
    /// withheld. A run of an unknown team changes nothing.
    pub open spec fn withheld(self, run: RunView) -> ContestView {
        let k = self.index_of(run.team_login);
        if self.has(run.team_login) {
            ContestView {
                teams: self.teams.update(k, self.teams[k].withheld(run.prob, run.answer)),
                ..self
            }
        } else {
            self
        }
    }

    /// The standings are up to date: each placement from 1 to the number
    /// of teams is held by exactly one team, a team that ranks better than
    /// another is placed before it, and the score board names each team at
    /// its placement.
    pub open spec fn is_ranked(self) -> bool {
        &&& self.score_board.len() == self.teams.len()
        &&& self.placements_exact()
        &&& forall|i: int|
            0 <= i < self.teams.len() ==> self.score_board[(#[trigger] self.teams[i]).placement
                - 1] == self.teams[i].login
        &&& forall|i: int, j: int|
            0 <= i < self.teams.len() && 0 <= j < self.teams.len() && (
            #[trigger] self.teams[i]).score().before((#[trigger] self.teams[j]).score())
                ==> self.teams[i].placement < self.teams[j].placement
    }

    /// Each placement from 1 to the number of teams is held by exactly one
    /// team.
    pub open spec fn placements_exact(self) -> bool {
        &&& forall|i: int|
            0 <= i < self.teams.len() ==> 1 <= (#[trigger] self.teams[i]).placement
                <= self.teams.len()
        &&& forall|i: int, j: int|
            0 <= i < self.teams.len() && 0 <= j < self.teams.len() && i != j ==> (
            #[trigger] self.teams[i]).placement != (#[trigger] self.teams[j]).placement
        &&& forall|p: int| 1 <= p <= self.teams.len() ==> #[trigger] self.placed(p)
    }

    /// Some team holds the placement `p`.
    pub open spec fn placed(self, p: int) -> bool {
        exists|i: int| 0 <= i < self.teams.len() && (#[trigger] self.teams[i]).placement == p
    }

    /// The scores of the teams in ranking order.
    pub open spec fn order(self) -> Seq<ScoreView> {
        sorted_scores(team_scores(self.teams))
    }

    /// The contest with its standings computed anew: each team placed one
    /// behind the number of teams that rank better, and the score board
    /// listing the logins best first.
    pub open spec fn ranked(self) -> ContestView {
        ContestView {
            teams: Seq::new(
                self.teams.len(),
                |i: int|
                    TeamView {
                        placement: (score_rank(self.order(), self.teams[i].score()) + 1) as nat,
                        ..self.teams[i]
                    },
            ),
            score_board: score_logins(self.order()),
            ..self
        }
    }
}

/// Teams in the strict order of their logins stand each at the rank of
/// its own login, and no two share a login.
pub proof fn lemma_own_index(c: ContestView, k: int)
    requires
        c.wf(),
        0 <= k < c.teams.len(),
    ensures
        c.has(c.teams[k].login),
        c.index_of(c.teams[k].login) == k,
        forall|m: int|
            0 <= m < c.teams.len() && m != k ==> (#[trigger] c.teams[m]).login != c.teams[k].login,
{
    let keys = logins(c.teams);
    assert(keys[k] == c.teams[k].login);
    lemma_rank_parts(keys, keys[k]);
    assert forall|m: int| 0 <= m < c.teams.len() && m != k implies (#[trigger] c.teams[m]).login
        != c.teams[k].login by {
        assert(keys[m] == c.teams[m].login);
    }
}

/// Teams in the strict order of their logins have scores that differ from
/// each other.
pub proof fn lemma_scores_differ(teams: Seq<TeamView>)
    requires
        ascending(logins(teams)),
    ensures
        team_scores(teams).no_duplicates(),
{
    let scores = team_scores(teams);
    assert forall|i: int, j: int| 0 <= i < scores.len() && 0 <= j < scores.len() && i
        != j implies scores[i] != scores[j] by {
        let a = logins(teams)[i];
        let b = logins(teams)[j];
        lemma_text_irreflexive(a);
        if i < j {
            assert(text_before(a, b));
        } else {
            assert(text_before(b, a));
        }
    }
}

/// Two teams of a contest never tie: exactly one of them ranks better than
/// the other.
pub proof fn lemma_teams_never_tie(c: ContestView, i: int, j: int)
    requires
        c.wf(),
        0 <= i < c.teams.len(),
        0 <= j < c.teams.len(),
        i != j,
    ensures
        c.teams[i].score().before(c.teams[j].score()) != c.teams[j].score().before(
            c.teams[i].score(),
        ),
{
    lemma_scores_differ(c.teams);
    assert(team_scores(c.teams)[i] == c.teams[i].score());
    assert(team_scores(c.teams)[j] == c.teams[j].score());
    lemma_score_total(c.teams[i].score(), c.teams[j].score());
}

/// Computing the standings keeps the teams as they are but for their
/// placements, and leaves the standings up to date, with each placement
/// from 1 to the number of teams held by exactly one team.
pub proof fn lemma_ranked(c: ContestView)
    requires
        c.wf(),
    ensures
        c.ranked().wf(),
        c.ranked().is_ranked(),
        c.ranked().placements_exact(),
        c.ranked().teams.len() == c.teams.len(),
        forall|i: int|
            0 <= i < c.teams.len() ==> (#[trigger] c.ranked().teams[i]) == (TeamView {
                placement: c.ranked().teams[i].placement,
                ..c.teams[i]
            }),
{
    let r = c.ranked();
    let n = c.teams.len() as int;
    let scores = team_scores(c.teams);
    let order = c.order();
    lemma_scores_differ(c.teams);
    lemma_sorted_scores(scores);
    lemma_sorted_distinct(scores);
    assert(logins(r.teams) =~= logins(c.teams));
    assert forall|i: int| 0 <= i < n implies {
        &&& 1 <= (#[trigger] r.teams[i]).placement <= n
        &&& r.teams[i].placement - 1 == score_rank(order, c.teams[i].score())
        &&& order[score_rank(order, c.teams[i].score())] == c.teams[i].score()
        &&& r.teams[i].score() == c.teams[i].score()
        &&& r.score_board[r.teams[i].placement - 1] == r.teams[i].login
    } by {
        assert(scores[i] == c.teams[i].score());
        assert(scores.contains(scores[i]));
        lemma_member_rank(order, scores[i]);
    }
    assert forall|i: int, j: int|
        0 <= i < n && 0 <= j < n && (#[trigger] r.teams[i]).score().before(
            (#[trigger] r.teams[j]).score(),
        ) implies r.teams[i].placement < r.teams[j].placement by {
        let a = score_rank(order, c.teams[i].score());
        let b = score_rank(order, c.teams[j].score());
        lemma_score_rank_parts(order, c.teams[j].score());
        if a >= b {
            assert(!order[a].before(c.teams[j].score()));
        }
    }
    assert forall|i: int, j: int| 0 <= i < n && 0 <= j < n && i != j implies (
    #[trigger] r.teams[i]).placement != (#[trigger] r.teams[j]).placement by {
        assert(scores[i] != scores[j]);
    }
    assert forall|p: int| 1 <= p <= n implies #[trigger] r.placed(p) by {
        let x = order[p - 1];
        assert(order.contains(x));
        assert(scores.contains(x));
        let i = choose|i: int| 0 <= i < scores.len() && scores[i] == x;
        lemma_member_rank(order, x);
        assert(scores[i] == c.teams[i].score());
        assert(r.teams[i].placement == p);
    }
}

/// The roster of a contest, its clock, and the last standings.
#[derive(Debug)]
pub struct ContestFile {
    pub contest_name: String,
    /// The teams by login.
    pub teams: StringMap<Team>,
    pub current_time: i64,
    pub maximum_time: i64,
    pub score_freeze_time: i64,
    /// The minutes charged for every rejected run.
    pub penalty_per_wrong_answer: i64,
    /// The logins in the order of the last ranking, best first.
    pub score_board: Vec<String>,
    pub number_problems: usize,
}

impl View for ContestFile {
    type V = ContestView;

    open spec fn view(&self) -> ContestView {
        ContestView {
            contest_name: self.contest_name@,
            teams: team_views(self.teams.values@),
            current_time: self.current_time as int,
            maximum_time: self.maximum_time as int,
            score_freeze_time: self.score_freeze_time as int,
            penalty_per_wrong_answer: self.penalty_per_wrong_answer as int,
            score_board: self.score_board@.map_values(|s: String| s@),
            number_problems: self.number_problems as nat,
        }
    }
}

impl Clone for ContestFile {
    fn clone(&self) -> (copy: ContestFile)
        ensures
            copy@ == self@,
            self.wf() ==> copy.wf(),
    {
        let mut keys: Vec<String> = Vec::new();
        let n = self.teams.keys.len();
        let mut i: usize = 0;
        while i < n
            invariant
                i <= n,
                n == self.teams.keys@.len(),
                keys@ == self.teams.keys@.take(i as int),
            decreases n - i,
        {
            keys.push(self.teams.keys[i].clone());
            assert(keys@ == self.teams.keys@.take(i + 1));
            i += 1;
        }
        let mut values: Vec<Team> = Vec::new();
        let m = self.teams.values.len();
        let mut i: usize = 0;
        while i < m
            invariant
                i <= m,
                m == self.teams.values@.len(),
                values@.len() == i,
                forall|j: int| 0 <= j < i ==> (#[trigger] values@[j])@ == self.teams.values@[j]@,
                forall|j: int|
                    0 <= j < i && self.teams.values@[j].wf() ==> (#[trigger] values@[j]).wf(),
            decreases m - i,
        {
            values.push(self.teams.values[i].clone());
            i += 1;
        }
        let mut board: Vec<String> = Vec::new();
        let b = self.score_board.len();
        let mut i: usize = 0;
        while i < b
            invariant
                i <= b,
                b == self.score_board@.len(),
                board@ == self.score_board@.take(i as int),
            decreases b - i,
        {
            board.push(self.score_board[i].clone());
            assert(board@ == self.score_board@.take(i + 1));
            i += 1;
        }
        assert(self.teams.keys@.take(n as int) == self.teams.keys@);
        assert(self.score_board@.take(b as int) == self.score_board@);
        let copy = ContestFile {
            contest_name: self.contest_name.clone(),
            teams: StringMap { keys, values },
            current_time: self.current_time,
            maximum_time: self.maximum_time,
            score_freeze_time: self.score_freeze_time,
            penalty_per_wrong_answer: self.penalty_per_wrong_answer,
            score_board: board,
            number_problems: self.number_problems,
        };
        assert(copy@.teams == self@.teams);
        copy
    }
}

impl ContestFile {
    /// The roster is a well-formed map, each team is well-formed, and each
    /// team stands under its own login.
    pub open spec fn wf(&self) -> bool {
        &&& self.teams.wf()
        &&& forall|i: int|
            0 <= i < self.teams.values@.len() ==> {
                &&& (#[trigger] self.teams.values@[i]).wf()
                &&& self.teams.values@[i].login@ == self.teams.key_seq()[i]
            }
    }

    /// A well-formed contest has a well-formed view, and the logins of the
    /// view are the keys of the roster.
    pub proof fn lemma_view_wf(&self)
        requires
            self.wf(),
        ensures
            self@.wf(),
            logins(self@.teams) == self.teams.key_seq(),
    {
        assert(logins(self@.teams) =~= self.teams.key_seq());
    }

    /// Says whether the contest is well-formed.
    pub fn is_wf(&self) -> (ok: bool)
        ensures
            ok == self.wf(),
    {
        if !self.teams.is_wf() {
            return false;
        }
        let mut i: usize = 0;
        while i < self.teams.values.len()
            invariant
                i <= self.teams.values@.len(),
                self.teams.wf(),
                forall|j: int|
                    0 <= j < i ==> {
                        &&& (#[trigger] self.teams.values@[j]).wf()
                        &&& self.teams.values@[j].login@ == self.teams.key_seq()[j]
                    },
            decreases self.teams.values@.len() - i,
        {
            assert(self.teams.key_seq()[i as int] == self.teams.keys@[i as int]@);
            if !self.teams.values[i].is_wf() || self.teams.values[i].login != self.teams.keys[i] {
                return false;
            }
            i += 1;
        }
        true
    }

    /// A contest with the given clock and with `teams` enrolled in turn;
    /// where two of them share a login, the later one stays. The roster
    /// has the logins given and under each the last team given with it.
    pub fn new(
        contest_name: String,
        teams: Vec<Team>,
        current_time: i64,
        maximum_time: i64,
        score_freeze_time: i64,
        penalty: i64,
        number_problems: usize,
    ) -> (contest: ContestFile)
        requires
            forall|i: int| 0 <= i < teams@.len() ==> (#[trigger] teams@[i]).wf(),
        ensures
            contest.wf(),
            contest@ == (ContestView {
                contest_name: contest_name@,
                teams: roster(team_views(teams@)),
                current_time: current_time as int,
                maximum_time: maximum_time as int,
                score_freeze_time: score_freeze_time as int,
                penalty_per_wrong_answer: penalty as int,
                score_board: Seq::empty(),
                number_problems: number_problems as nat,
            }),
            forall|login: Seq<char>|
                contest@.has(login) <==> #[trigger] logins(team_views(teams@)).contains(login),
            forall|i: int|
                0 <= i < teams@.len() && #[trigger] latest(team_views(teams@), i) ==> member(
                    contest@.teams,
                    team_views(teams@)[i].login,
                ) == team_views(teams@)[i],
    {
        let mut m: StringMap<Team> = StringMap::new();
        let ghost all = team_views(teams@);
        let ghost given = teams@;
        for t in it: teams
            invariant
                it.seq() == given,
                all == team_views(given),
                forall|i: int| 0 <= i < given.len() ==> (#[trigger] given[i]).wf(),
                m.wf(),
                forall|i: int|
                    0 <= i < m.values@.len() ==> {
                        &&& (#[trigger] m.values@[i]).wf()
                        &&& m.values@[i].login@ == m.key_seq()[i]
                    },
                team_views(m.values@) == roster(all.take(it.index() as int)),
        {
            let ghost done = it.index() as int;
            let ghost before = team_views(m.values@);
            proof {
                assert(t == given[done]);
                assert(t@ == all[done]);
                assert(all.take(done + 1).drop_last() == all.take(done));
                assert(all.take(done + 1).last() == t@);
                assert(logins(before) =~= m.key_seq());
            }
            let ghost keys = m.key_seq();
            let ghost values = m.values@;
            let ghost team = t;
            let ghost k = rank(keys, t.login@);
            proof {
                lemma_rank_parts(keys, t.login@);
            }
            let _ = m.insert(t.login.clone(), t);
            proof {
                assert forall|i: int| 0 <= i < m.values@.len() implies {
                    &&& (#[trigger] m.values@[i]).wf()
                    &&& m.values@[i].login@ == m.key_seq()[i]
                } by {
                    if holds(keys, team.login@) {
                        if i != k {
                            assert(m.values@[i] == values[i]);
                        }
                    } else {
                        if i < k {
                            assert(m.values@[i] == values[i]);
                            assert(m.key_seq()[i] == keys[i]);
                        } else if i > k {
                            assert(m.values@[i] == values[i - 1]);
                            assert(m.key_seq()[i] == keys[i - 1]);
                        }
                    }
                }
                assert(team_views(m.values@) =~= enrolled(before, team@));
            }
        }
        assert(all.take(all.len() as int) == all);
        let contest = ContestFile {
            contest_name,
            teams: m,
            current_time,
            maximum_time,
            score_freeze_time,
            penalty_per_wrong_answer: penalty,
            score_board: Vec::new(),
            number_problems,
        };
        assert(contest@.score_board =~= Seq::<Seq<char>>::empty());
        proof {
            lemma_roster(all);
            assert forall|login: Seq<char>|
                contest@.has(login) <==> #[trigger] logins(all).contains(login) by {
                lemma_rank_parts(logins(contest@.teams), login);
            }
        }
        contest
    }

    /// A stand-in contest without teams.
    pub fn dummy() -> (contest: ContestFile)
        ensures
            contest.wf(),
            contest@ == (ContestView {
                contest_name: "Dummy Contest"@,
                teams: Seq::empty(),
                current_time: 0,
                maximum_time: 0,
                score_freeze_time: 0,
                penalty_per_wrong_answer: 0,
                score_board: Seq::empty(),
                number_problems: 0,
            }),
    {
        let teams: Vec<Team> = Vec::new();
        assert(team_views(teams@) =~= Seq::<TeamView>::empty());
        ContestFile::new("Dummy Contest".to_owned(), teams, 0, 0, 0, 0, 0)
    }

    /// The placement of the team with this login, if the roster has it.
    pub fn placement(&self, team_login: &String) -> (place: Option<usize>)
        requires
            self.wf(),
        ensures
            match place {
                Some(p) => self@.has(team_login@) && p == self@.teams[self@.index_of(
                    team_login@,
                )].placement,
                None => !self@.has(team_login@),
            },
    {
        proof {
            self.lemma_view_wf();
            lemma_rank_parts(self.teams.key_seq(), team_login@);
        }
        match self.teams.get(team_login.as_str()) {
            Some(t) => {
                assert(self@.teams[self@.index_of(team_login@)] == t@);
                Some(t.placement)
            },
            None => None,
        }
    }

    /// Computes the standings anew: ranks the teams by score, best first,
    /// gives each its placement and lists the logins in that order on the
    /// score board. The roster is the only source of logins, so this
    /// never fails.
    pub fn recalculate_placement(&mut self) -> (done: Result<(), ContestError>)
        requires
            old(self).wf(),
        ensures
            final(self).wf(),
            done is Ok,
            final(self)@ == old(self)@.ranked(),
            final(self)@.is_ranked(),
            final(self)@.placements_exact(),
    {
        proof {
            self.lemma_view_wf();
            lemma_ranked(self@);
        }
        let n = self.teams.values.len();
        let ghost teams = self@.teams;
        let ghost scores = team_scores(teams);
        let mut order: Vec<Score> = Vec::new();
        let mut i: usize = 0;
        while i < n
            invariant
                i <= n,
                n == self.teams.values@.len(),
                *self == *old(self),
                teams == self@.teams,
                scores == team_scores(teams),
                in_rank_order(score_views(order@)),
                score_views(order@) == sorted_scores(scores.take(i as int)),
            decreases n - i,
        {
            let s = self.teams.values[i].score();
            proof {
                assert(scores.take(i + 1).drop_last() == scores.take(i as int));
                assert(scores.take(i + 1).last() == s@);
            }
            push_score(&mut order, s);
            i += 1;
        }
        proof {
            assert(scores.take(n as int) == scores);
            lemma_sorted_scores(scores);
        }
        let ghost ranks = score_views(order@);
        let mut i: usize = 0;
        while i < n
            invariant
                i <= n,
                n == self.teams.values@.len(),
                n == ranks.len(),
                n == old(self).teams.values@.len(),
                n == teams.len(),
                n == scores.len(),
                teams == old(self)@.teams,
                scores == team_scores(teams),
                ranks == score_views(order@),
                ranks == old(self)@.order(),
                in_rank_order(ranks),
                forall|x: ScoreView| ranks.contains(x) <==> scores.contains(x),
                self.teams.keys == old(self).teams.keys,
                self.contest_name == old(self).contest_name,
                self.current_time == old(self).current_time,
                self.maximum_time == old(self).maximum_time,
                self.score_freeze_time == old(self).score_freeze_time,
                self.penalty_per_wrong_answer == old(self).penalty_per_wrong_answer,
                self.number_problems == old(self).number_problems,
                forall|j: int|
                    0 <= j < i ==> (#[trigger] self.teams.values@[j])@ == (TeamView {
                        placement: (score_rank(ranks, teams[j].score()) + 1) as nat,
                        ..teams[j]
                    }),
                forall|j: int|
                    i <= j < n ==> (#[trigger] self.teams.values@[j]) == old(self).teams.values@[j],
                forall|j: int|
                    0 <= j < n ==> {
                        &&& (#[trigger] self.teams.values@[j]).wf()
                        &&& self.teams.values@[j].login@ == self.teams.key_seq()[j]
                    },
            decreases n - i,
        {
            let s = self.teams.values[i].score();
            proof {
                assert(self.teams.values@[i as int] == old(self).teams.values@[i as int]);
                assert(teams[i as int] == old(self).teams.values@[i as int]@);
                assert(s@ == scores[i as int]);
                lemma_member_rank(ranks, s@);
            }
            let at = locate_score(&order, &s);
            self.teams.values[i].placement = at + 1;
            i += 1;
        }
        let mut board: Vec<String> = Vec::new();
        let mut k: usize = 0;
        while k < n
            invariant
                k <= n,
                n == order@.len(),
                board@.len() == k,
                forall|j: int| 0 <= j < k ==> (#[trigger] board@[j])@ == order@[j]@.team_login,
            decreases n - k,
        {
            board.push(order[k].team_login.clone());
            k += 1;
        }
        self.score_board = board;
        proof {
            assert(self@.teams =~= old(self)@.ranked().teams);
            assert(self@.score_board =~= old(self)@.ranked().score_board);
        }
        Ok(())
    }

    /// Computes the standings anew, as [`ContestFile::recalculate_placement`]
    /// does.
    pub fn reload_score(&mut self) -> (done: Result<(), ContestError>)
        requires
            old(self).wf(),
        ensures
            final(self).wf(),
            done is Ok,
            final(self)@ == old(self)@.ranked(),
            final(self)@.is_ranked(),
            final(self)@.placements_exact(),
    {
        self.recalculate_placement()
    }

    /// Makes the verdict of `r` known to the team that sent it; a rejected
    /// run costs `penalty_per_wrong_answer`. Fails, and changes nothing,
    /// where the roster has no such team.
    pub fn apply_run(&mut self, r: &RunTuple) -> (done: Result<(), ContestError>)
        requires
            old(self).wf(),
        ensures
            final(self).wf(),
            final(self)@ == old(self)@.judged(r@),
            done is Ok <==> old(self)@.has(r@.team_login),
            done matches Err(ContestError::UnmatchedTeam(login)) ==> login@ == r@.team_login
                && *final(self) == *old(self),
    {
        proof {
            self.lemma_view_wf();
        }
        let (at, here) = self.teams.locate(r.team_login.as_str());
        if !here {
            return Err(ContestError::UnmatchedTeam(r.team_login.clone()));
        }
        let cost = self.penalty_per_wrong_answer;
        self.teams.values[at].apply_run(r, cost);
        proof {
            assert(self@.teams =~= old(self)@.judged(r@).teams);
        }
        Ok(())
    }

    /// Takes the verdict of `r` in without making it known, and hands back
    /// the score of the team as it stands. Fails, and changes nothing,
    /// where the roster has no such team.
    pub fn apply_run_frozen(&mut self, r: &RunTuple) -> (done: Result<Score, ContestError>)
        requires
            old(self).wf(),
        ensures
            final(self).wf(),
            final(self)@ == old(self)@.withheld(r@),
            done is Ok <==> old(self)@.has(r@.team_login),
            done matches Ok(score) ==> score@ == final(self)@.teams[old(self)@.index_of(
                r@.team_login,
            )].score(),
            done matches Err(ContestError::UnmatchedTeam(login)) ==> login@ == r@.team_login
                && *final(self) == *old(self),
    {
        proof {
            self.lemma_view_wf();
        }
        let (at, here) = self.teams.locate(r.team_login.as_str());
        if !here {
            return Err(ContestError::UnmatchedTeam(r.team_login.clone()));
        }
        self.teams.values[at].apply_run_frozen(r);
        proof {
            assert(self@.teams =~= old(self)@.withheld(r@).teams);
        }
        Ok(self.teams.values[at].score())
    }
}

} // verus!
