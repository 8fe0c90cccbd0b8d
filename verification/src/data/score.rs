//! The key by which teams are ranked.

use std::cmp::Ordering;
use vstd::prelude::*;
use super::lexical::{
    compare_text, lemma_text_irreflexive, lemma_text_total, lemma_text_transitive, text_before,
    Side,
};

verus! {

/// What decides the rank of a team: problems solved, total penalty, the
/// minute of the latest accepted run, and the login.
#[derive(Debug)]
pub struct Score {
    pub solved: usize,
    pub penalty: i64,
    pub max_solution_time: i64,
    pub team_login: String,
}

/// The mathematical value of a [`Score`].
pub struct ScoreView {
    pub solved: nat,
    pub penalty: int,
    pub max_solution_time: int,
    pub team_login: Seq<char>,
}

impl View for Score {
    type V = ScoreView;

    open spec fn view(&self) -> ScoreView {
        ScoreView {
            solved: self.solved as nat,
            penalty: self.penalty as int,
            max_solution_time: self.max_solution_time as int,
            team_login: self.team_login@,
        }
    }
}

impl ScoreView {
    /// `self` ranks better than `other`: more problems solved; or as many
    /// and less penalty; or the same penalty too and an earlier last
    /// accepted run; or all three alike and the login first in the order of
    /// strings.
    pub open spec fn before(self, other: ScoreView) -> bool {
        if self.solved != other.solved {
            self.solved > other.solved
        } else if self.penalty != other.penalty {
            self.penalty < other.penalty
        } else if self.max_solution_time != other.max_solution_time {
            self.max_solution_time < other.max_solution_time
        } else {
            text_before(self.team_login, other.team_login)
        }
    }

    /// `self` ranks better than `other` or is the same score.
    pub open spec fn before_or_same(self, other: ScoreView) -> bool {
        self.before(other) || self == other
    }
}

/// No score ranks better than itself.
pub proof fn lemma_score_irreflexive(a: ScoreView)
    ensures
        !a.before(a),
{
    lemma_text_irreflexive(a.team_login);
}

/// Ranking better is transitive.
pub proof fn lemma_score_transitive(a: ScoreView, b: ScoreView, c: ScoreView)
    requires
        a.before(b),
        b.before(c),
    ensures
        a.before(c),
{
    if a.solved == b.solved && b.solved == c.solved && a.penalty == b.penalty && b.penalty
        == c.penalty && a.max_solution_time == b.max_solution_time && b.max_solution_time
        == c.max_solution_time {
        lemma_text_transitive(a.team_login, b.team_login, c.team_login);
    }
}

/// Of two different scores exactly one ranks better than the other: there
/// are no ties. Two teams have different logins, so their scores differ.
pub proof fn lemma_score_total(a: ScoreView, b: ScoreView)
    requires
        a != b,
    ensures
        a.before(b) != b.before(a),
{
    lemma_text_total(a.team_login, b.team_login);
}

impl Score {
    /// Says how `self` stands to `other` in the ranking.
    pub fn compare(&self, other: &Score) -> (side: Side)
        ensures
            side == Side::Before <==> self@.before(other@),
            side == Side::After <==> other@.before(self@),
            side == Side::Same <==> self@ == other@,
    {
        proof {
            lemma_score_irreflexive(self@);
            if self@ != other@ {
                lemma_score_total(self@, other@);
            }
        }
        if self.solved != other.solved {
            if self.solved > other.solved {
                Side::Before
            } else {
                Side::After
            }
        } else if self.penalty != other.penalty {
            if self.penalty < other.penalty {
                Side::Before
            } else {
                Side::After
            }
        } else if self.max_solution_time != other.max_solution_time {
            if self.max_solution_time < other.max_solution_time {
                Side::Before
            } else {
                Side::After
            }
        } else {
            compare_text(self.team_login.as_str(), other.team_login.as_str())
        }
    }
}

impl Clone for Score {
    fn clone(&self) -> (copy: Score)
        ensures
            copy == *self,
    {
        Score {
            solved: self.solved,
            penalty: self.penalty,
            max_solution_time: self.max_solution_time,
            team_login: self.team_login.clone(),
        }
    }
}

impl PartialEq for Score {
    fn eq(&self, other: &Score) -> (same: bool) {
        self.compare(other) == Side::Same
    }
}

impl vstd::std_specs::cmp::PartialEqSpecImpl for Score {
    open spec fn obeys_eq_spec() -> bool {
        true
    }

    open spec fn eq_spec(&self, other: &Score) -> bool {
        self@ == other@
    }
}

impl Eq for Score {

}

impl PartialOrd for Score {
    fn partial_cmp(&self, other: &Score) -> (order: Option<Ordering>) {
        match self.compare(other) {
            Side::Before => Some(Ordering::Less),
            Side::Same => Some(Ordering::Equal),
            Side::After => Some(Ordering::Greater),
        }
    }
}

impl vstd::std_specs::cmp::PartialOrdSpecImpl for Score {
    open spec fn obeys_partial_cmp_spec() -> bool {
        true
    }

    open spec fn partial_cmp_spec(&self, other: &Score) -> Option<Ordering> {
        if self@.before(other@) {
            Some(Ordering::Less)
        } else if self@ == other@ {
            Some(Ordering::Equal)
        } else {
            Some(Ordering::Greater)
        }
    }
}

} // verus!
