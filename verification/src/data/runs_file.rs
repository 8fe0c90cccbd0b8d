//! The feed of judged runs, in the order of their time.

use vstd::prelude::*;
use super::run::{RunTuple, RunView};

verus! {

/// The views of `runs`, in their order.
pub open spec fn run_views(runs: Seq<RunTuple>) -> Seq<RunView> {
    runs.map_values(|r: RunTuple| r@)
}

/// No run is later than one that follows it.
pub open spec fn time_ordered(runs: Seq<RunView>) -> bool {
    forall|i: int, j: int|
        0 <= i < j < runs.len() ==> (#[trigger] runs[i]).time <= (#[trigger] runs[j]).time
}

/// How many of the leading `runs` are not later than `time`. Among runs
/// in the order of their time this is where a run of that time goes so
/// as to follow every run of its own minute.
pub open spec fn time_rank(runs: Seq<RunView>, time: int) -> int
    decreases runs.len(),
{
    if runs.len() > 0 && runs[0].time <= time {
        1 + time_rank(runs.drop_first(), time)
    } else {
        0
    }
}

/// `runs` with `run` put in behind the runs that are not later.
pub open spec fn filed(runs: Seq<RunView>, run: RunView) -> Seq<RunView> {
    runs.insert(time_rank(runs, run.time), run)
}

/// `runs` in the order of their time; runs of one minute keep the order
/// in which they were given.
pub open spec fn by_time(runs: Seq<RunView>) -> Seq<RunView>
    decreases runs.len(),
{
    if runs.len() == 0 {
        Seq::empty()
    } else {
        filed(by_time(runs.drop_last()), runs.last())
    }
}

/// The runs sent at minute `time`.
pub open spec fn sent_at(time: int) -> spec_fn(RunView) -> bool {
    |r: RunView| r.time == time
}

/// The runs sent before minute `time`.
pub open spec fn sent_before(time: int) -> spec_fn(RunView) -> bool {
    |r: RunView| r.time < time
}

/// The rank lies within the sequence or just behind it.
pub proof fn lemma_time_rank_bounds(runs: Seq<RunView>, time: int)
    ensures
        0 <= time_rank(runs, time) <= runs.len(),
    decreases runs.len(),
{
    if runs.len() > 0 {
        lemma_time_rank_bounds(runs.drop_first(), time);
    }
}

/// An index that parts the runs not later than `time` from the later ones
/// is the rank of `time`.
pub proof fn lemma_time_rank_is(runs: Seq<RunView>, time: int, k: int)
    requires
        0 <= k <= runs.len(),
        forall|i: int| 0 <= i < k ==> (#[trigger] runs[i]).time <= time,
        k < runs.len() ==> runs[k].time > time,
    ensures
        time_rank(runs, time) == k,
    decreases k,
{
    if k > 0 {
        let rest = runs.drop_first();
        assert(forall|i: int| 0 <= i < k - 1 ==> #[trigger] rest[i] == runs[i + 1]);
        lemma_time_rank_is(rest, time, k - 1);
    }
}

/// Among runs in the order of their time, those before the rank of `time`
/// are not later than `time` and the others are.
pub proof fn lemma_time_rank_parts(runs: Seq<RunView>, time: int)
    requires
        time_ordered(runs),
    ensures
        0 <= time_rank(runs, time) <= runs.len(),
        forall|i: int| 0 <= i < time_rank(runs, time) ==> (#[trigger] runs[i]).time <= time,
        forall|i: int| time_rank(runs, time) <= i < runs.len() ==> (#[trigger] runs[i]).time > time,
    decreases runs.len(),
{
    let k = time_rank(runs, time);
    lemma_time_rank_bounds(runs, time);
    if runs.len() > 0 {
        let rest = runs.drop_first();
        assert(forall|i: int| 0 <= i < rest.len() ==> #[trigger] rest[i] == runs[i + 1]);
        assert(time_ordered(rest));
        lemma_time_rank_parts(rest, time);
        if runs[0].time <= time {
            assert forall|i: int| 0 <= i < k implies (#[trigger] runs[i]).time <= time by {
                if i > 0 {
                    assert(runs[i] == rest[i - 1]);
                }
            }
            assert forall|i: int| k <= i < runs.len() implies (#[trigger] runs[i]).time > time by {
                assert(runs[i] == rest[i - 1]);
            }
        } else {
            assert forall|i: int| 0 <= i < runs.len() implies (#[trigger] runs[i]).time > time by {
                if i > 0 {
                    assert(runs[0].time <= runs[i].time);
                }
            }
        }
    }
}

/// Filing a run keeps the order of time.
pub proof fn lemma_filed_ordered(runs: Seq<RunView>, run: RunView)
    requires
        time_ordered(runs),
    ensures
        time_ordered(filed(runs, run)),
        filed(runs, run).len() == runs.len() + 1,
{
    let k = time_rank(runs, run.time);
    let more = filed(runs, run);
    lemma_time_rank_parts(runs, run.time);
    assert forall|i: int, j: int| 0 <= i < j < more.len() implies (#[trigger] more[i]).time <= (
    #[trigger] more[j]).time by {
        if j == k {
            assert(more[i] == runs[i]);
        } else if i == k {
            assert(more[j] == runs[j - 1]);
        } else {
            let a = if i < k { i } else { i - 1 };
            let b = if j < k { j } else { j - 1 };
            assert(more[i] == runs[a]);
            assert(more[j] == runs[b]);
        }
    }
}

/// Where no run is as the test asks, nothing passes it.
pub proof fn lemma_filter_none(runs: Seq<RunView>, test: spec_fn(RunView) -> bool)
    requires
        forall|i: int| 0 <= i < runs.len() ==> !test(#[trigger] runs[i]),
    ensures
        runs.filter(test) == Seq::<RunView>::empty(),
    decreases runs.len(),
{
    reveal(Seq::filter);
    if runs.len() > 0 {
        let init = runs.drop_last();
        assert(forall|i: int| 0 <= i < init.len() ==> #[trigger] init[i] == runs[i]);
        lemma_filter_none(init, test);
    }
}

/// One more run at the end passes the test or not, and what came before
/// is tested as before.
pub proof fn lemma_filter_push(runs: Seq<RunView>, run: RunView, test: spec_fn(RunView) -> bool)
    ensures
        runs.push(run).filter(test) == if test(run) {
            runs.filter(test).push(run)
        } else {
            runs.filter(test)
        },
{
    reveal(Seq::filter);
    assert(runs.push(run).drop_last() == runs);
}

/// Filing a run puts it behind the runs of its own minute and leaves the
/// runs of every minute in the order they had.
pub proof fn lemma_filed_stable(runs: Seq<RunView>, run: RunView, time: int)
    requires
        time_ordered(runs),
    ensures
        filed(runs, run).filter(sent_at(time)) == if run.time == time {
            runs.filter(sent_at(time)).push(run)
        } else {
            runs.filter(sent_at(time))
        },
{
    let k = time_rank(runs, run.time);
    let test = sent_at(time);
    lemma_time_rank_parts(runs, run.time);
    let head = runs.subrange(0, k);
    let tail = runs.subrange(k, runs.len() as int);
    assert(runs == head + tail);
    assert(filed(runs, run) == head.push(run) + tail);
    Seq::filter_distributes_over_add(head, tail, test);
    Seq::filter_distributes_over_add(head.push(run), tail, test);
    lemma_filter_push(head, run, test);
    if run.time == time {
        assert forall|i: int| 0 <= i < tail.len() implies !test(#[trigger] tail[i]) by {
            assert(tail[i] == runs[k + i]);
        }
        lemma_filter_none(tail, test);
        assert(head.filter(test) + Seq::<RunView>::empty() == head.filter(test));
        assert(head.filter(test).push(run) + Seq::<RunView>::empty() == head.filter(test).push(
            run,
        ));
    }
}

/// Sorting by time gives the runs in the order of their time, and the
/// runs of each minute in the order in which they were given: the sort
/// is stable, and it neither drops nor invents a run.
pub proof fn lemma_by_time(runs: Seq<RunView>, time: int)
    ensures
        time_ordered(by_time(runs)),
        by_time(runs).len() == runs.len(),
        by_time(runs).filter(sent_at(time)) == runs.filter(sent_at(time)),
    decreases runs.len(),
{
    if runs.len() == 0 {
        assert(by_time(runs) == runs);
    } else {
        let init = runs.drop_last();
        lemma_by_time(init, time);
        lemma_filed_ordered(by_time(init), runs.last());
        lemma_filed_stable(by_time(init), runs.last(), time);
        lemma_filter_push(init, runs.last(), sent_at(time));
        assert(init.push(runs.last()) == runs);
    }
}

/// The runs of a contest in the order of their time.
#[derive(Debug)]
pub struct RunsFile {
    runs: Vec<RunTuple>,
}

impl View for RunsFile {
    type V = Seq<RunView>;

    closed spec fn view(&self) -> Seq<RunView> {
        run_views(self.runs@)
    }
}

impl Clone for RunsFile {
    fn clone(&self) -> (copy: RunsFile)
        ensures
            copy@ == self@,
    {
        proof {
            use_type_invariant(self);
        }
        let mut runs: Vec<RunTuple> = Vec::new();
        let n = self.runs.len();
        let mut i: usize = 0;
        while i < n
            invariant
                i <= n,
                n == self.runs@.len(),
                runs@ == self.runs@.take(i as int),
            decreases n - i,
        {
            runs.push(self.runs[i].clone());
            assert(runs@ == self.runs@.take(i + 1));
            i += 1;
        }
        assert(self.runs@.take(n as int) == self.runs@);
        RunsFile { runs }
    }
}

impl RunsFile {
    #[verifier::type_invariant]
    spec fn ordered(&self) -> bool {
        time_ordered(run_views(self.runs@))
    }

    /// A feed without runs.
    pub fn empty() -> (feed: RunsFile)
        ensures
            feed@ == Seq::<RunView>::empty(),
    {
        let feed = RunsFile { runs: Vec::new() };
        assert(feed@ == Seq::<RunView>::empty());
        feed
    }

    /// The feed of `runs`, sorted by time. Runs of one minute keep the
    /// order in which they were given.
    pub fn new(runs: Vec<RunTuple>) -> (feed: RunsFile)
        ensures
            feed@ == by_time(run_views(runs@)),
    {
        let ghost all = run_views(runs@);
        let mut sorted: Vec<RunTuple> = Vec::new();
        for run in it: runs
            invariant
                run_views(it.seq()) == all,
                time_ordered(run_views(sorted@)),
                run_views(sorted@) == by_time(all.take(it.index() as int)),
        {
            proof {
                assert(all.take(it.index() + 1).drop_last() == all.take(it.index() as int));
                assert(all.take(it.index() + 1).last() == run@);
                lemma_filed_ordered(run_views(sorted@), run@);
            }
            let ghost before = run_views(sorted@);
            let at = Self::locate(&sorted, run.time);
            sorted.insert(at, run);
            assert(run_views(sorted@) == filed(before, run@));
        }
        assert(all.take(all.len() as int) == all);
        RunsFile { runs: sorted }
    }

    /// Finds where a run of minute `time` goes among `runs`.
    fn locate(runs: &Vec<RunTuple>, time: i64) -> (at: usize)
        requires
            time_ordered(run_views(runs@)),
        ensures
            at == time_rank(run_views(runs@), time as int),
            at <= runs@.len(),
    {
        let ghost views = run_views(runs@);
        let mut lo: usize = 0;
        let mut hi: usize = runs.len();
        while lo < hi
            invariant
                lo <= hi <= runs@.len(),
                views == run_views(runs@),
                time_ordered(views),
                forall|i: int| 0 <= i < lo ==> (#[trigger] views[i]).time <= time,
                forall|i: int| hi <= i < views.len() ==> (#[trigger] views[i]).time > time,
            decreases hi - lo,
        {
            let mid = lo + (hi - lo) / 2;
            assert(views[mid as int] == runs@[mid as int]@);
            if runs[mid].time <= time {
                lo = mid + 1;
            } else {
                hi = mid;
            }
        }
        proof {
            lemma_time_rank_is(views, time as int, lo as int);
        }
        lo
    }

    /// The number of runs.
    pub fn len(&self) -> (n: usize)
        ensures
            n == self@.len(),
    {
        self.runs.len()
    }

    /// The runs in the order of their time.
    pub fn sorted(&self) -> (runs: &Vec<RunTuple>)
        ensures
            run_views(runs@) == self@,
            time_ordered(self@),
    {
        proof {
            use_type_invariant(self);
        }
        &self.runs
    }

    /// The runs in the order of their time.
    pub fn as_vec(&self) -> (runs: &Vec<RunTuple>)
        ensures
            run_views(runs@) == self@,
            time_ordered(self@),
    {
        proof {
            use_type_invariant(self);
        }
        &self.runs
    }

    /// The feed of the runs sent before minute `frozen_time`.
    pub fn filter_frozen(&self, frozen_time: i64) -> (feed: RunsFile)
        ensures
            feed@ == self@.filter(sent_before(frozen_time as int)),
    {
        proof {
            use_type_invariant(self);
        }
        let ghost all = run_views(self.runs@);
        let ghost test = sent_before(frozen_time as int);
        let mut kept: Vec<RunTuple> = Vec::new();
        let mut i: usize = 0;
        while i < self.runs.len()
            invariant
                i <= self.runs@.len(),
                all == run_views(self.runs@),
                test == sent_before(frozen_time as int),
                time_ordered(all),
                time_ordered(run_views(kept@)),
                run_views(kept@) == all.take(i as int).filter(test),
                forall|j: int, m: int|
                    0 <= j < kept@.len() && i <= m < all.len() ==> (#[trigger] run_views(
                        kept@,
                    )[j]).time <= (#[trigger] all[m]).time,
            decreases self.runs@.len() - i,
        {
            proof {
                assert(all.take(i + 1) == all.take(i as int).push(all[i as int]));
                lemma_filter_push(all.take(i as int), all[i as int], test);
            }
            if self.runs[i].time < frozen_time {
                let ghost before = run_views(kept@);
                kept.push(self.runs[i].clone());
                proof {
                    let now = run_views(kept@);
                    assert(now == before.push(all[i as int]));
                    assert forall|j: int, m: int|
                        0 <= j < kept@.len() && i + 1 <= m < all.len() implies (
                    #[trigger] now[j]).time <= (#[trigger] all[m]).time by {
                        if j < before.len() {
                            assert(now[j] == before[j]);
                        }
                    }
                    assert forall|a: int, b: int| 0 <= a < b < now.len() implies (
                    #[trigger] now[a]).time <= (#[trigger] now[b]).time by {
                        assert(now[a] == before[a]);
                        if b < before.len() {
                            assert(now[b] == before[b]);
                        }
                    }
                }
            }
            i += 1;
        }
        assert(all.take(i as int) == all);
        RunsFile { runs: kept }
    }
}

} // verus!
