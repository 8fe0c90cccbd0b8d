//! Verdicts and the judged state of one problem of one team.

use vstd::prelude::*;

verus! {

/// The verdict of one run.
#[derive(Debug, PartialEq, Eq, Structural, Clone, Copy)]
pub enum Answer {
    /// Accepted, with the contest minute at which the run was judged.
    Yes(i64),
    /// Rejected.
    No,
    /// Still being judged.
    Wait,
    /// A verdict that the feed could not name.
    Unk,
}

/// `x`, brought into the range of `i64`.
pub open spec fn clamp_i64(x: int) -> int {
    if x > i64::MAX {
        i64::MAX as int
    } else if x < i64::MIN {
        i64::MIN as int
    } else {
        x
    }
}

/// One more than `n`, unless `n` is the largest count a machine word holds.
pub open spec fn bump(n: nat) -> nat {
    if n < usize::MAX {
        n + 1
    } else {
        n
    }
}

/// The mathematical state of a problem.
pub struct ProblemView {
    pub solved: bool,
    pub submissions: nat,
    pub penalty: int,
    pub time_solved: int,
    /// Withheld verdicts, oldest first.
    pub pending: Seq<Answer>,
}

impl ProblemView {
    /// A problem nobody has submitted to.
    pub open spec fn empty() -> ProblemView {
        ProblemView {
            solved: false,
            submissions: 0,
            penalty: 0,
            time_solved: 0,
            pending: Seq::empty(),
        }
    }

    /// The problem still owes a disclosure.
    pub open spec fn waiting(self) -> bool {
        !self.solved && self.pending.len() > 0
    }

    /// The state after one more verdict has been made known, where a
    /// rejected run costs `cost` minutes.
    pub open spec fn judged(self, answer: Answer, cost: int) -> ProblemView {
        if self.solved {
            self
        } else {
            match answer {
                Answer::Yes(t) => ProblemView {
                    solved: true,
                    submissions: bump(self.submissions),
                    penalty: clamp_i64(self.penalty + t),
                    time_solved: t as int,
                    pending: Seq::empty(),
                },
                Answer::No => ProblemView {
                    submissions: bump(self.submissions),
                    penalty: clamp_i64(self.penalty + cost),
                    ..self
                },
                Answer::Wait => ProblemView { pending: self.pending.push(Answer::No), ..self },
                Answer::Unk => self,
            }
        }
    }

    /// The state after a verdict has been taken in but withheld.
    pub open spec fn withheld(self, answer: Answer) -> ProblemView {
        if answer == Answer::Wait {
            self
        } else {
            ProblemView { pending: self.pending.push(answer), ..self }
        }
    }

    /// The state after the oldest withheld verdict has been disclosed,
    /// where a rejected run costs `cost` minutes.
    pub open spec fn revealed(self, cost: int) -> ProblemView {
        if self.waiting() {
            ProblemView { pending: self.pending.drop_first(), ..self }.judged(
                self.pending.first(),
                cost,
            )
        } else {
            self
        }
    }

    /// All of `answers` made known, in order.
    pub open spec fn judged_all(self, answers: Seq<Answer>, cost: int) -> ProblemView
        decreases answers.len(),
    {
        if answers.len() == 0 {
            self
        } else {
            self.judged(answers.first(), cost).judged_all(answers.drop_first(), cost)
        }
    }

    /// All of `answers` taken in but withheld, in order.
    pub open spec fn withheld_all(self, answers: Seq<Answer>) -> ProblemView
        decreases answers.len(),
    {
        if answers.len() == 0 {
            self
        } else {
            self.withheld(answers.first()).withheld_all(answers.drop_first())
        }
    }

    /// Disclosures repeated until the problem owes none.
    pub open spec fn drained(self, cost: int) -> ProblemView
        decreases self.pending.len() + waits(self.pending),
    {
        if self.waiting() {
            proof {
                lemma_reveal_makes_progress(self, cost);
            }
            self.revealed(cost).drained(cost)
        } else {
            self
        }
    }
}

/// How many of `answers` are runs still being judged.
pub open spec fn waits(answers: Seq<Answer>) -> nat
    decreases answers.len(),
{
    if answers.len() == 0 {
        0
    } else {
        waits(answers.drop_last()) + if answers.last() == Answer::Wait {
            1nat
        } else {
            0nat
        }
    }
}

/// The count of runs still being judged, taken from the front.
proof fn lemma_waits_drop_first(answers: Seq<Answer>)
    requires
        answers.len() > 0,
    ensures
        waits(answers) == waits(answers.drop_first()) + if answers.first() == Answer::Wait {
            1nat
        } else {
            0nat
        },
    decreases answers.len(),
{
    if answers.len() == 1 {
        assert(answers.drop_first() =~= Seq::<Answer>::empty());
        assert(answers.drop_last() =~= Seq::<Answer>::empty());
    } else {
        lemma_waits_drop_first(answers.drop_last());
        assert(answers.drop_last().drop_first() =~= answers.drop_first().drop_last());
    }
}

/// A disclosure shortens the queue of withheld verdicts, or trades a run
/// still being judged for a rejection at its end.
pub proof fn lemma_reveal_makes_progress(p: ProblemView, cost: int)
    requires
        p.waiting(),
    ensures
        p.revealed(cost).pending.len() + waits(p.revealed(cost).pending) < p.pending.len()
            + waits(p.pending),
{
    lemma_waits_drop_first(p.pending);
    let rest = p.pending.drop_first();
    if p.pending.first() == Answer::Wait {
        assert(rest.push(Answer::No).drop_last() =~= rest);
    }
}

/// The judged state of one problem of one team.
#[derive(Debug)]
pub struct Problem {
    pub solved: bool,
    pub submissions: usize,
    pub penalty: i64,
    pub time_solved: i64,
    /// Withheld verdicts, oldest first.
    pub answers: Vec<Answer>,
}

impl View for Problem {
    type V = ProblemView;

    open spec fn view(&self) -> ProblemView {
        ProblemView {
            solved: self.solved,
            submissions: self.submissions as nat,
            penalty: self.penalty as int,
            time_solved: self.time_solved as int,
            pending: self.answers@,
        }
    }
}

impl Clone for Problem {
    fn clone(&self) -> (copy: Problem)
        ensures
            copy@ == self@,
    {
        let mut answers: Vec<Answer> = Vec::new();
        let mut i: usize = 0;
        while i < self.answers.len()
            invariant
                i <= self.answers.len(),
                answers@ == self.answers@.take(i as int),
            decreases self.answers.len() - i,
        {
            answers.push(self.answers[i]);
            i += 1;
        }
        assert(self.answers@.take(i as int) == self.answers@);
        Problem {
            solved: self.solved,
            submissions: self.submissions,
            penalty: self.penalty,
            time_solved: self.time_solved,
            answers,
        }
    }
}

impl PartialEq for Problem {
    fn eq(&self, other: &Problem) -> (same: bool) {
        if self.solved != other.solved || self.submissions != other.submissions || self.penalty
            != other.penalty || self.time_solved != other.time_solved || self.answers.len()
            != other.answers.len() {
            return false;
        }
        let mut i: usize = 0;
        while i < self.answers.len()
            invariant
                i <= self.answers.len(),
                self.answers.len() == other.answers.len(),
                self.answers@.take(i as int) == other.answers@.take(i as int),
            decreases self.answers.len() - i,
        {
            if self.answers[i] != other.answers[i] {
                return false;
            }
            assert(self.answers@.take(i + 1) == self.answers@.take(i as int).push(
                self.answers@[i as int],
            ));
            assert(other.answers@.take(i + 1) == other.answers@.take(i as int).push(
                other.answers@[i as int],
            ));
            i += 1;
        }
        assert(self.answers@.take(i as int) == self.answers@);
        assert(other.answers@.take(i as int) == other.answers@);
        true
    }
}

impl vstd::std_specs::cmp::PartialEqSpecImpl for Problem {
    open spec fn obeys_eq_spec() -> bool {
        true
    }

    open spec fn eq_spec(&self, other: &Problem) -> bool {
        self@ == other@
    }
}

impl Eq for Problem {

}

/// `a + b`, held at the nearer end of the range where the sum leaves it.
pub fn saturating_add_i64(a: i64, b: i64) -> (sum: i64)
    ensures
        sum == clamp_i64(a + b),
{
    match a.checked_add(b) {
        Some(s) => s,
        None => if b > 0 {
            i64::MAX
        } else {
            i64::MIN
        },
    }
}

impl Problem {
    /// A problem nobody has submitted to.
    pub fn empty() -> (p: Problem)
        ensures
            p@ == ProblemView::empty(),
    {
        Problem { solved: false, submissions: 0, time_solved: 0, penalty: 0, answers: Vec::new() }
    }

    /// Makes one more verdict known, where a rejected run costs `cost`
    /// minutes.
    ///
    /// A solved problem takes no further verdict. An accepted run closes
    /// the problem, adds the minute of the run to the penalty and drops
    /// what was withheld; a rejected run adds `cost` to the penalty; a run
    /// still being judged leaves a rejection among the withheld verdicts
    /// and touches no count.
    pub fn add_run_problem(&mut self, answer: Answer, cost: i64)
        ensures
            final(self)@ == old(self)@.judged(answer, cost as int),
    {
        if self.solved {
            return ;
        }
        match answer {
            Answer::Yes(tim) => {
                self.solved = true;
                self.submissions = self.submissions.saturating_add(1);
                self.penalty = saturating_add_i64(self.penalty, tim);
                self.time_solved = tim;
                self.answers.clear();
            },
            Answer::No => {
                self.submissions = self.submissions.saturating_add(1);
                self.penalty = saturating_add_i64(self.penalty, cost);
            },
            Answer::Wait => {
                self.answers.push(Answer::No);
            },
            Answer::Unk => {},
        }
    }

    /// The problem still owes a disclosure.
    pub fn wait(&self) -> (w: bool)
        ensures
            w == self@.waiting(),
    {
        !self.solved && self.answers.len() > 0
    }

    /// Takes a verdict in without making it known.
    pub fn add_run_frozen(&mut self, answer: Answer)
        ensures
            final(self)@ == old(self)@.withheld(answer),
    {
        if answer != Answer::Wait {
            self.answers.push(answer)
        }
    }

    /// Discloses the oldest withheld verdict, if the problem owes one; a
    /// rejected run costs `cost` minutes.
    pub fn reveal_run_frozen(&mut self, cost: i64)
        ensures
            final(self)@ == old(self)@.revealed(cost as int),
    {
        if self.wait() {
            let a = self.answers.remove(0);
            self.add_run_problem(a, cost);
        }
    }
}

/// A solved problem is closed: no verdict made known afterwards changes it.
/// In particular a second accepted run leaves time and penalty as the
/// first one set them.
pub proof fn lemma_accepted_is_final(p: ProblemView, t: i64, later: Answer, cost: int)
    ensures
        p.judged(Answer::Yes(t), cost).solved,
        p.judged(Answer::Yes(t), cost).judged(later, cost) == p.judged(Answer::Yes(t), cost),
{
}

/// A solved problem stays as it is under any sequence of verdicts.
pub proof fn lemma_solved_ignores(p: ProblemView, answers: Seq<Answer>, cost: int)
    requires
        p.solved,
    ensures
        p.judged_all(answers, cost) == p,
    decreases answers.len(),
{
    if answers.len() > 0 {
        lemma_solved_ignores(p, answers.drop_first(), cost);
    }
}

/// `answers` without the runs still being judged.
pub open spec fn settled(answers: Seq<Answer>) -> Seq<Answer>
    decreases answers.len(),
{
    if answers.len() == 0 {
        Seq::empty()
    } else if answers.first() == Answer::Wait {
        settled(answers.drop_first())
    } else {
        seq![answers.first()] + settled(answers.drop_first())
    }
}

/// One of `answers` is an accepted run.
pub open spec fn has_accepted(answers: Seq<Answer>) -> bool {
    exists|i: int| 0 <= i < answers.len() && #[trigger] answers[i] is Yes
}

/// None of `answers` is a run still being judged.
pub open spec fn all_settled(answers: Seq<Answer>) -> bool {
    forall|i: int| 0 <= i < answers.len() ==> #[trigger] answers[i] != Answer::Wait
}

/// What is left of verdicts without the runs still being judged holds no
/// such run, and is all of them where there was none.
pub proof fn lemma_settled(answers: Seq<Answer>)
    ensures
        all_settled(settled(answers)),
        all_settled(answers) ==> settled(answers) == answers,
    decreases answers.len(),
{
    if answers.len() > 0 {
        let rest = answers.drop_first();
        lemma_settled(rest);
        let kept = settled(answers);
        assert forall|i: int| 0 <= i < kept.len() implies #[trigger] kept[i] != Answer::Wait by {
            if answers.first() != Answer::Wait && i > 0 {
                assert(kept[i] == settled(rest)[i - 1]);
            }
        }
        if all_settled(answers) {
            assert(answers[0] != Answer::Wait);
            assert forall|i: int| 0 <= i < rest.len() implies #[trigger] rest[i]
                != Answer::Wait by {
                assert(rest[i] == answers[i + 1]);
            }
            assert(seq![answers.first()] + rest =~= answers);
        }
    }
}

/// Withholding verdicts appends those of them that are no runs still
/// being judged to the queue, and changes nothing else.
pub proof fn lemma_withheld_all_appends(p: ProblemView, answers: Seq<Answer>)
    ensures
        p.withheld_all(answers) == (ProblemView { pending: p.pending + settled(answers), ..p }),
    decreases answers.len(),
{
    if answers.len() == 0 {
        assert(p.pending + settled(answers) =~= p.pending);
    } else {
        let q = p.withheld(answers.first());
        lemma_withheld_all_appends(q, answers.drop_first());
        assert(q.pending + settled(answers.drop_first()) =~= p.pending + settled(answers));
    }
}

/// Draining an unsolved problem amounts to making its withheld verdicts
/// known in order, as long as none of them is a run still being judged.
pub proof fn lemma_drained_is_judged_all(p: ProblemView, cost: int)
    requires
        !p.solved,
        all_settled(p.pending),
    ensures
        p.drained(cost) == (ProblemView { pending: Seq::empty(), ..p }).judged_all(
            p.pending,
            cost,
        ),
    decreases p.pending.len(),
{
    let bare = ProblemView { pending: Seq::<Answer>::empty(), ..p };
    if p.pending.len() == 0 {
        assert(p.pending =~= Seq::<Answer>::empty());
    } else {
        let next = p.revealed(cost);
        let first = p.pending.first();
        let rest = p.pending.drop_first();
        assert(first == p.pending[0]);
        assert(forall|i: int| 0 <= i < rest.len() ==> rest[i] == p.pending[i + 1]);
        assert(p.drained(cost) == next.drained(cost));
        assert(bare.judged_all(p.pending, cost) == bare.judged(first, cost).judged_all(
            rest,
            cost,
        ));
        if first is Yes {
            assert(next == bare.judged(first, cost));
            lemma_solved_ignores(next, rest, cost);
        } else {
            assert(next.pending == rest);
            assert(bare.judged(first, cost) == (ProblemView { pending: Seq::empty(), ..next }));
            lemma_drained_is_judged_all(next, cost);
        }
    }
}

/// Two unsolved problems with the same counts come to the same state
/// under verdicts of which one is an accepted run, whatever each has
/// withheld and whether or not the runs still being judged are left out
/// for the second: the accepted run closes both and drops what was
/// withheld.
pub proof fn lemma_accepted_levels(p: ProblemView, q: ProblemView, answers: Seq<Answer>, cost: int)
    requires
        !p.solved,
        !q.solved,
        p.submissions == q.submissions,
        p.penalty == q.penalty,
        p.time_solved == q.time_solved,
        has_accepted(answers),
    ensures
        p.judged_all(answers, cost) == q.judged_all(settled(answers), cost),
    decreases answers.len(),
{
    let first = answers.first();
    let rest = answers.drop_first();
    let kept = settled(rest);
    if first is Yes {
        assert((seq![first] + kept).drop_first() =~= kept);
        lemma_solved_ignores(p.judged(first, cost), rest, cost);
        lemma_solved_ignores(q.judged(first, cost), kept, cost);
    } else {
        let k = choose|k: int| 0 <= k < answers.len() && #[trigger] answers[k] is Yes;
        assert(rest[k - 1] == answers[k]);
        if first == Answer::Wait {
            lemma_accepted_levels(p.judged(first, cost), q, rest, cost);
        } else {
            assert((seq![first] + kept).drop_first() =~= kept);
            lemma_accepted_levels(p.judged(first, cost), q.judged(first, cost), rest, cost);
        }
    }
}

/// Making verdicts known as they come gives the same problem as
/// withholding all of them and then disclosing until nothing is owed.
///
/// This holds of a problem that is unsolved and owes nothing at the start,
/// and of verdicts of which none is a run still being judged or one is an
/// accepted run. A run still being judged is dropped when withheld, but
/// leaves a rejection among the withheld verdicts when made known; only
/// an accepted run clears that.
pub proof fn lemma_direct_equals_frozen_then_revealed(
    p: ProblemView,
    answers: Seq<Answer>,
    cost: int,
)
    requires
        !p.solved,
        p.pending.len() == 0,
        all_settled(answers) || has_accepted(answers),
    ensures
        p.withheld_all(answers).drained(cost) == p.judged_all(answers, cost),
{
    lemma_withheld_all_appends(p, answers);
    lemma_settled(answers);
    let kept = settled(answers);
    let frozen = p.withheld_all(answers);
    assert(p.pending + kept =~= kept);
    assert(p.pending =~= Seq::<Answer>::empty());
    lemma_drained_is_judged_all(frozen, cost);
    assert(frozen.drained(cost) == p.judged_all(kept, cost));
    if !all_settled(answers) {
        lemma_accepted_levels(p, p, answers, cost);
    }
}

} // verus!
