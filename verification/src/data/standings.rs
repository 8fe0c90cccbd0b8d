//! The score board as a consumer sees it: one row for each team, best
//! first, with what is known of each of its problems.

use vstd::prelude::*;
use super::contest::{lemma_own_index, logins, ContestFile, ContestView};
use super::problem::ProblemView;
use super::string_map::lemma_rank_parts;
use super::team::{Team, TeamView};

verus! {

/// What the score board shows of one problem of a team.
#[derive(Debug)]
pub struct ProblemStatus {
    pub id: String,
    pub solved: bool,
    pub submissions: usize,
    pub penalty: i64,
    /// The problem owes a disclosure.
    pub judging: bool,
}

/// The mathematical value of a [`ProblemStatus`].
pub struct ProblemStatusView {
    pub id: Seq<char>,
    pub solved: bool,
    pub submissions: nat,
    pub penalty: int,
    pub judging: bool,
}

impl View for ProblemStatus {
    type V = ProblemStatusView;

    open spec fn view(&self) -> ProblemStatusView {
        ProblemStatusView {
            id: self.id@,
            solved: self.solved,
            submissions: self.submissions as nat,
            penalty: self.penalty as int,
            judging: self.judging,
        }
    }
}

/// One row of the score board.
#[derive(Debug)]
pub struct Standing {
    pub placement: usize,
    pub team_login: String,
    pub escola: String,
    pub name: String,
    pub solved: usize,
    pub penalty: i64,
    /// The problems of the team, in the order of their ids.
    pub problems: Vec<ProblemStatus>,
}

/// The mathematical value of a [`Standing`].
pub struct StandingView {
    pub placement: nat,
    pub team_login: Seq<char>,
    pub escola: Seq<char>,
    pub name: Seq<char>,
    pub solved: nat,
    pub penalty: int,
    pub problems: Seq<ProblemStatusView>,
}

/// The views of `statuses`, in their order.
pub open spec fn status_views(statuses: Seq<ProblemStatus>) -> Seq<ProblemStatusView> {
    statuses.map_values(|s: ProblemStatus| s@)
}

/// The views of `rows`, in their order.
pub open spec fn standing_views(rows: Seq<Standing>) -> Seq<StandingView> {
    rows.map_values(|r: Standing| r@)
}

impl View for Standing {
    type V = StandingView;

    open spec fn view(&self) -> StandingView {
        StandingView {
            placement: self.placement as nat,
            team_login: self.team_login@,
            escola: self.escola@,
            name: self.name@,
            solved: self.solved as nat,
            penalty: self.penalty as int,
            problems: status_views(self.problems@),
        }
    }
}

/// What the score board shows of the problem `p` with the id `id`.
pub open spec fn status_of(id: Seq<char>, p: ProblemView) -> ProblemStatusView {
    ProblemStatusView {
        id,
        solved: p.solved,
        submissions: p.submissions,
        penalty: p.penalty,
        judging: p.waiting(),
    }
}

impl TeamView {
    /// The row of the team on the score board.
    pub open spec fn standing(self) -> StandingView {
        StandingView {
            placement: self.placement,
            team_login: self.login,
            escola: self.escola,
            name: self.name,
            solved: self.score().solved,
            penalty: self.score().penalty,
            problems: Seq::new(
                self.problems.len(),
                |i: int| status_of(self.ids[i], self.problems[i]),
            ),
        }
    }
}

/// The rows of the teams that `board` names, in its order; a login that the
/// roster does not have gets no row.
pub open spec fn board_rows(c: ContestView, board: Seq<Seq<char>>) -> Seq<StandingView>
    decreases board.len(),
{
    if board.len() == 0 {
        Seq::empty()
    } else if c.has(board.last()) {
        board_rows(c, board.drop_last()).push(c.teams[c.index_of(board.last())].standing())
    } else {
        board_rows(c, board.drop_last())
    }
}

impl ContestView {
    /// The score board: the rows of the teams in the order of the last
    /// ranking.
    pub open spec fn standings(self) -> Seq<StandingView> {
        board_rows(self, self.score_board)
    }
}

/// Of a board whose every login the roster has, each login gets its row.
pub proof fn lemma_board_rows(c: ContestView, board: Seq<Seq<char>>)
    requires
        forall|p: int| 0 <= p < board.len() ==> c.has(#[trigger] board[p]),
    ensures
        board_rows(c, board).len() == board.len(),
        forall|p: int|
            0 <= p < board.len() ==> (#[trigger] board_rows(c, board)[p]) == c.teams[c.index_of(
                board[p],
            )].standing(),
    decreases board.len(),
{
    if board.len() > 0 {
        let init = board.drop_last();
        assert(forall|p: int| 0 <= p < init.len() ==> init[p] == board[p]);
        lemma_board_rows(c, init);
        assert(c.has(board[board.len() - 1]));
    }
}

/// With the standings up to date, the score board has one row for each
/// team, and the row at index `p` is that of the team placed `p + 1`.
pub proof fn lemma_standings_of_ranked(c: ContestView)
    requires
        c.wf(),
        c.is_ranked(),
    ensures
        c.standings().len() == c.teams.len(),
        forall|p: int|
            0 <= p < c.teams.len() ==> (#[trigger] c.standings()[p]).placement == p + 1
                && c.standings()[p].team_login == c.score_board[p],
{
    let board = c.score_board;
    assert forall|p: int| 0 <= p < board.len() implies {
        &&& c.has(#[trigger] board[p])
        &&& c.teams[c.index_of(board[p])].placement == p + 1
        &&& c.teams[c.index_of(board[p])].login == board[p]
    } by {
        assert(c.placed(p + 1));
        let i = choose|i: int| 0 <= i < c.teams.len() && (#[trigger] c.teams[i]).placement == p + 1;
        lemma_own_index(c, i);
    }
    lemma_board_rows(c, board);
}

impl Team {
    /// The row of the team on the score board.
    pub fn standing(&self) -> (row: Standing)
        requires
            self.wf(),
        ensures
            row@ == self@.standing(),
    {
        let score = self.score();
        let mut problems: Vec<ProblemStatus> = Vec::new();
        let n = self.problems.values.len();
        let mut i: usize = 0;
        while i < n
            invariant
                i <= n,
                n == self.problems.values@.len(),
                n == self.problems.keys@.len(),
                problems@.len() == i,
                forall|j: int|
                    0 <= j < i ==> (#[trigger] problems@[j])@ == status_of(
                        self@.ids[j],
                        self@.problems[j],
                    ),
            decreases n - i,
        {
            let p = &self.problems.values[i];
            assert(self@.problems[i as int] == p@);
            assert(self@.ids[i as int] == self.problems.keys@[i as int]@);
            problems.push(
                ProblemStatus {
                    id: self.problems.keys[i].clone(),
                    solved: p.solved,
                    submissions: p.submissions,
                    penalty: p.penalty,
                    judging: p.wait(),
                },
            );
            i += 1;
        }
        let row = Standing {
            placement: self.placement,
            team_login: self.login.clone(),
            escola: self.escola.clone(),
            name: self.name.clone(),
            solved: score.solved,
            penalty: score.penalty,
            problems,
        };
        assert(row@.problems =~= self@.standing().problems);
        row
    }
}

impl ContestFile {
    /// The score board: one row for each login of the last ranking that the
    /// roster has, in the order of that ranking. Right after the standings
    /// have been computed that is one row for each team, best first.
    pub fn standings(&self) -> (rows: Vec<Standing>)
        requires
            self.wf(),
        ensures
            standing_views(rows@) == self@.standings(),
    {
        let ghost board = self@.score_board;
        proof {
            self.lemma_view_wf();
        }
        let mut rows: Vec<Standing> = Vec::new();
        let n = self.score_board.len();
        let mut i: usize = 0;
        while i < n
            invariant
                i <= n,
                n == self.score_board@.len(),
                board == self@.score_board,
                self.wf(),
                logins(self@.teams) == self.teams.key_seq(),
                standing_views(rows@) == board_rows(self@, board.take(i as int)),
            decreases n - i,
        {
            proof {
                assert(board.take(i + 1).drop_last() == board.take(i as int));
                assert(board.take(i + 1).last() == self.score_board@[i as int]@);
                lemma_rank_parts(self.teams.key_seq(), self.score_board@[i as int]@);
            }
            let (at, here) = self.teams.locate(self.score_board[i].as_str());
            if here {
                let ghost before = standing_views(rows@);
                assert(self@.teams[at as int] == self.teams.values@[at as int]@);
                let row = self.teams.values[at].standing();
                rows.push(row);
                assert(standing_views(rows@) == before.push(row@));
            }
            i += 1;
        }
        assert(board.take(n as int) == board);
        rows
    }
}

} // verus!
