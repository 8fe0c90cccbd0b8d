//! Sequences of scores kept in ranking order, best first.

use vstd::prelude::*;
use super::lexical::Side;
use super::score::{
    lemma_score_irreflexive, lemma_score_total, lemma_score_transitive, Score, ScoreView,
};

verus! {

/// The views of `scores`, in their order.
pub open spec fn score_views(scores: Seq<Score>) -> Seq<ScoreView> {
    scores.map_values(|s: Score| s@)
}

/// No member of `scores` ranks better than an earlier one.
pub open spec fn in_rank_order(scores: Seq<ScoreView>) -> bool {
    forall|i: int, j: int|
        0 <= i < j < scores.len() ==> !(#[trigger] scores[j]).before(#[trigger] scores[i])
}

/// How many of the leading `scores` rank better than `s`. In a sequence in
/// ranking order this is the index at which `s` stands or belongs.
pub open spec fn score_rank(scores: Seq<ScoreView>, s: ScoreView) -> int
    decreases scores.len(),
{
    if scores.len() > 0 && scores[0].before(s) {
        1 + score_rank(scores.drop_first(), s)
    } else {
        0
    }
}

/// `scores` with `s` put in at its rank.
pub open spec fn pushed(scores: Seq<ScoreView>, s: ScoreView) -> Seq<ScoreView> {
    scores.insert(score_rank(scores, s), s)
}

/// `scores` brought into ranking order: each put, in turn, at its rank among
/// those before it.
pub open spec fn sorted_scores(scores: Seq<ScoreView>) -> Seq<ScoreView>
    decreases scores.len(),
{
    if scores.len() == 0 {
        Seq::empty()
    } else {
        pushed(sorted_scores(scores.drop_last()), scores.last())
    }
}

/// The rank lies within the sequence or just behind it.
pub proof fn lemma_score_rank_bounds(scores: Seq<ScoreView>, s: ScoreView)
    ensures
        0 <= score_rank(scores, s) <= scores.len(),
    decreases scores.len(),
{
    if scores.len() > 0 {
        lemma_score_rank_bounds(scores.drop_first(), s);
    }
}

/// An index that parts the scores ranking better than `s` from the others
/// is the rank of `s`.
pub proof fn lemma_score_rank_is(scores: Seq<ScoreView>, s: ScoreView, k: int)
    requires
        0 <= k <= scores.len(),
        forall|i: int| 0 <= i < k ==> (#[trigger] scores[i]).before(s),
        k < scores.len() ==> !scores[k].before(s),
    ensures
        score_rank(scores, s) == k,
    decreases k,
{
    if k > 0 {
        let rest = scores.drop_first();
        assert(forall|i: int| 0 <= i < k - 1 ==> #[trigger] rest[i] == scores[i + 1]);
        lemma_score_rank_is(rest, s, k - 1);
    }
}

/// Of two scores of which the second does not rank better than the first,
/// the first ranks better than whatever the second ranks better than.
pub proof fn lemma_not_after_then_before(a: ScoreView, b: ScoreView, c: ScoreView)
    requires
        !b.before(a),
        b.before(c),
    ensures
        a.before(c),
{
    if a != b {
        lemma_score_total(a, b);
        lemma_score_transitive(a, b, c);
    }
}

/// In a sequence in ranking order, the scores before the rank of `s` rank
/// better than `s` and the others do not.
pub proof fn lemma_score_rank_parts(scores: Seq<ScoreView>, s: ScoreView)
    requires
        in_rank_order(scores),
    ensures
        0 <= score_rank(scores, s) <= scores.len(),
        forall|i: int| 0 <= i < score_rank(scores, s) ==> (#[trigger] scores[i]).before(s),
        forall|i: int|
            score_rank(scores, s) <= i < scores.len() ==> !(#[trigger] scores[i]).before(s),
    decreases scores.len(),
{
    let k = score_rank(scores, s);
    lemma_score_rank_bounds(scores, s);
    if scores.len() > 0 {
        let rest = scores.drop_first();
        assert(forall|i: int| 0 <= i < rest.len() ==> #[trigger] rest[i] == scores[i + 1]);
        assert(in_rank_order(rest));
        lemma_score_rank_parts(rest, s);
        if scores[0].before(s) {
            assert forall|i: int| 0 <= i < k implies (#[trigger] scores[i]).before(s) by {
                if i > 0 {
                    assert(scores[i] == rest[i - 1]);
                }
            }
            assert forall|i: int| k <= i < scores.len() implies !(#[trigger] scores[i]).before(
                s,
            ) by {
                assert(scores[i] == rest[i - 1]);
            }
        } else {
            assert forall|i: int| 0 <= i < scores.len() implies !(#[trigger] scores[i]).before(
                s,
            ) by {
                if i > 0 && scores[i].before(s) {
                    lemma_not_after_then_before(scores[0], scores[i], s);
                }
            }
        }
    }
}

/// Putting a score in at its rank keeps the ranking order, adds one member
/// and removes none.
pub proof fn lemma_pushed(scores: Seq<ScoreView>, s: ScoreView)
    requires
        in_rank_order(scores),
    ensures
        in_rank_order(pushed(scores, s)),
        pushed(scores, s).len() == scores.len() + 1,
        forall|x: ScoreView| pushed(scores, s).contains(x) <==> (scores.contains(x) || x == s),
{
    let k = score_rank(scores, s);
    let more = pushed(scores, s);
    lemma_score_rank_parts(scores, s);
    assert forall|i: int, j: int| 0 <= i < j < more.len() implies !(#[trigger] more[j]).before(
        #[trigger] more[i],
    ) by {
        if j == k {
            assert(more[i] == scores[i]);
            if s.before(scores[i]) {
                lemma_score_transitive(s, scores[i], s);
                lemma_score_irreflexive(s);
            }
        } else if i == k {
            assert(more[j] == scores[j - 1]);
        } else {
            let a = if i < k { i } else { i - 1 };
            let b = if j < k { j } else { j - 1 };
            assert(more[i] == scores[a]);
            assert(more[j] == scores[b]);
        }
    }
    assert forall|x: ScoreView| more.contains(x) <==> (scores.contains(x) || x == s) by {
        if more.contains(x) {
            let i = choose|i: int| 0 <= i < more.len() && more[i] == x;
            if i < k {
                assert(scores[i] == x);
            } else if i > k {
                assert(scores[i - 1] == x);
            }
        }
        if scores.contains(x) {
            let i = choose|i: int| 0 <= i < scores.len() && scores[i] == x;
            if i < k {
                assert(more[i] == x);
            } else {
                assert(more[i + 1] == x);
            }
        }
        if x == s {
            assert(more[k] == x);
        }
    }
}

/// Sorting gives a sequence in ranking order with the members of what
/// was given, as many as there were.
pub proof fn lemma_sorted_scores(scores: Seq<ScoreView>)
    ensures
        in_rank_order(sorted_scores(scores)),
        sorted_scores(scores).len() == scores.len(),
        forall|x: ScoreView| sorted_scores(scores).contains(x) <==> scores.contains(x),
    decreases scores.len(),
{
    if scores.len() > 0 {
        let init = scores.drop_last();
        lemma_sorted_scores(init);
        lemma_pushed(sorted_scores(init), scores.last());
        assert forall|x: ScoreView| sorted_scores(scores).contains(x) <==> scores.contains(x) by {
            if scores.contains(x) {
                let i = choose|i: int| 0 <= i < scores.len() && scores[i] == x;
                if i < scores.len() - 1 {
                    assert(init[i] == x);
                }
            }
            if init.contains(x) {
                let i = choose|i: int| 0 <= i < init.len() && init[i] == x;
                assert(scores[i] == x);
            }
            assert(scores[scores.len() - 1] == scores.last());
        }
    }
}

/// A score that stands in a sequence in ranking order stands at its rank,
/// and that rank lies within the sequence.
pub proof fn lemma_member_rank(scores: Seq<ScoreView>, s: ScoreView)
    requires
        in_rank_order(scores),
        scores.contains(s),
    ensures
        0 <= score_rank(scores, s) < scores.len(),
        scores[score_rank(scores, s)] == s,
{
    lemma_score_rank_parts(scores, s);
    lemma_score_irreflexive(s);
    let k = score_rank(scores, s);
    let i = choose|i: int| 0 <= i < scores.len() && scores[i] == s;
    if i < k {
        assert(scores[i].before(s));
    } else if i > k {
        assert(!scores[k].before(s));
        assert(!scores[i].before(scores[k]));
        if scores[k] != s {
            lemma_score_total(scores[k], s);
        }
    }
}

/// Sorting scores that differ from each other gives a sequence in which
/// each ranks strictly better than every later one.
pub proof fn lemma_sorted_distinct(scores: Seq<ScoreView>)
    requires
        scores.no_duplicates(),
    ensures
        sorted_scores(scores).no_duplicates(),
        forall|i: int, j: int|
            0 <= i < j < scores.len() ==> (#[trigger] sorted_scores(scores)[i]).before(
                #[trigger] sorted_scores(scores)[j],
            ),
    decreases scores.len(),
{
    lemma_sorted_scores(scores);
    let all = sorted_scores(scores);
    if scores.len() > 0 {
        let init = scores.drop_last();
        let last = scores.last();
        let prev = sorted_scores(init);
        let k = score_rank(prev, last);
        assert(init.no_duplicates()) by {
            assert forall|i: int, j: int|
                0 <= i < init.len() && 0 <= j < init.len() && i != j implies init[i]
                != init[j] by {
                assert(init[i] == scores[i]);
                assert(init[j] == scores[j]);
            }
        }
        lemma_sorted_distinct(init);
        lemma_sorted_scores(init);
        lemma_score_rank_bounds(prev, last);
        if prev.contains(last) {
            assert(init.contains(last));
            let i = choose|i: int| 0 <= i < init.len() && init[i] == last;
            assert(scores[i] == init[i]);
            assert(scores[scores.len() - 1] == last);
            assert(false);
        }
        assert forall|i: int, j: int|
            0 <= i < all.len() && 0 <= j < all.len() && i != j implies all[i] != all[j] by {
            let a = if i < k { i } else { i - 1 };
            let b = if j < k { j } else { j - 1 };
            if i == k {
                assert(all[j] == prev[b]);
                assert(prev.contains(prev[b]));
            } else if j == k {
                assert(all[i] == prev[a]);
                assert(prev.contains(prev[a]));
            } else {
                assert(all[i] == prev[a]);
                assert(all[j] == prev[b]);
            }
        }
    }
    assert forall|i: int, j: int| 0 <= i < j < scores.len() implies (#[trigger] all[i]).before(
        #[trigger] all[j],
    ) by {
        assert(!all[j].before(all[i]));
        lemma_score_total(all[i], all[j]);
    }
}

/// Says whether `scores` stand in ranking order.
pub fn is_in_rank_order(scores: &Vec<Score>) -> (ok: bool)
    ensures
        ok == in_rank_order(score_views(scores@)),
{
    let ghost views = score_views(scores@);
    let mut i: usize = 1;
    while i < scores.len()
        invariant
            1 <= i,
            views == score_views(scores@),
            forall|a: int, b: int|
                0 <= a < b < i && b < views.len() ==> !(#[trigger] views[b]).before(
                    #[trigger] views[a],
                ),
        decreases scores@.len() - i,
    {
        assert(views[i - 1] == scores@[i - 1]@);
        assert(views[i as int] == scores@[i as int]@);
        if scores[i - 1].compare(&scores[i]) == Side::After {
            return false;
        }
        proof {
            assert forall|a: int, b: int| 0 <= a < b < i + 1 && b < views.len() implies !(
            #[trigger] views[b]).before(#[trigger] views[a]) by {
                if b == i && a < i - 1 && views[b].before(views[a]) {
                    if views[a] != views[i - 1] {
                        lemma_score_total(views[a], views[i - 1]);
                        lemma_score_transitive(views[b], views[a], views[i - 1]);
                    }
                }
            }
        }
        i += 1;
    }
    true
}

/// Finds the rank of `s` among `scores`.
pub fn locate_score(scores: &Vec<Score>, s: &Score) -> (at: usize)
    requires
        in_rank_order(score_views(scores@)),
    ensures
        at == score_rank(score_views(scores@), s@),
        at <= scores@.len(),
{
    let ghost views = score_views(scores@);
    let mut lo: usize = 0;
    let mut hi: usize = scores.len();
    while lo < hi
        invariant
            lo <= hi <= scores@.len(),
            views == score_views(scores@),
            in_rank_order(views),
            forall|i: int| 0 <= i < lo ==> (#[trigger] views[i]).before(s@),
            forall|i: int| hi <= i < views.len() ==> !(#[trigger] views[i]).before(s@),
        decreases hi - lo,
    {
        let mid = lo + (hi - lo) / 2;
        assert(views[mid as int] == scores@[mid as int]@);
        match scores[mid].compare(s) {
            Side::Before => {
                proof {
                    assert forall|i: int| 0 <= i < mid + 1 implies (#[trigger] views[i]).before(
                        s@,
                    ) by {
                        if i < mid {
                            lemma_not_after_then_before(views[i], views[mid as int], s@);
                        }
                    }
                }
                lo = mid + 1;
            },
            _ => {
                proof {
                    assert forall|i: int| mid <= i < views.len() implies !(
                    #[trigger] views[i]).before(s@) by {
                        if i > mid && views[i].before(s@) {
                            lemma_not_after_then_before(views[mid as int], views[i], s@);
                        }
                    }
                }
                hi = mid;
            },
        }
    }
    proof {
        lemma_score_rank_is(views, s@, lo as int);
    }
    lo
}

/// Puts `s` in at its rank among `scores`.
pub fn push_score(scores: &mut Vec<Score>, s: Score)
    requires
        in_rank_order(score_views(old(scores)@)),
    ensures
        in_rank_order(score_views(final(scores)@)),
        score_views(final(scores)@) == pushed(score_views(old(scores)@), s@),
{
    let at = locate_score(scores, &s);
    proof {
        lemma_pushed(score_views(scores@), s@);
    }
    scores.insert(at, s);
    assert(score_views(scores@) =~= pushed(score_views(old(scores)@), s@));
}

} // verus!
