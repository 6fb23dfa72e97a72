//! Progress and checkpoints: a resume point that never skips an index.
use vstd::prelude::*;

use crate::partition::{
    covers, indices_of, interval, is_plan, lemma_covers_indices, lemma_covers_links, plan_end,
    RunPlan, WorkRange,
};

verus! {

/// Index `x` has been emitted: it lies in the emitted prefix of some range.
pub open spec fn emitted(ranges: Seq<WorkRange>, done: Seq<u64>, x: int) -> bool {
    exists|j: int|
        0 <= j < ranges.len() && ranges[j].start <= x < ranges[j].start + #[trigger] done[j]
}

/// Scanning the ranges from the `i`-th one: the first range that is not
/// complete gives its start plus what it has emitted; when every range is
/// complete, `hi`.
pub open spec fn checkpoint_from(ranges: Seq<WorkRange>, done: Seq<u64>, hi: nat, i: int) -> nat
    decreases ranges.len() - i,
{
    if i >= ranges.len() {
        hi
    } else if done[i] < ranges[i].count {
        (ranges[i].start + done[i]) as nat
    } else {
        checkpoint_from(ranges, done, hi, i + 1)
    }
}

/// The checkpoint of ranges that end at `hi` after `done[j]` indices of
/// each range `j` have been emitted.
pub open spec fn checkpoint_of(ranges: Seq<WorkRange>, done: Seq<u64>, hi: nat) -> nat {
    checkpoint_from(ranges, done, hi, 0)
}

/// Where the `i`-th range starts; `hi` past the last one.
pub open spec fn start_of(ranges: Seq<WorkRange>, hi: nat, i: int) -> nat {
    if i < ranges.len() {
        ranges[i].start as nat
    } else {
        hi
    }
}

/// From the `i`-th range on, the scan ends at or past that range's start,
/// and every index in between has been emitted.
proof fn lemma_checkpoint_from(ranges: Seq<WorkRange>, done: Seq<u64>, lo: nat, hi: nat, i: int)
    requires
        covers(ranges, lo, hi),
        done.len() == ranges.len(),
        forall|j: int| 0 <= j < ranges.len() ==> #[trigger] done[j] <= ranges[j].count,
        0 <= i <= ranges.len(),
    ensures
        start_of(ranges, hi, i) <= checkpoint_from(ranges, done, hi, i) <= hi,
        forall|x: int|
            start_of(ranges, hi, i) <= x < checkpoint_from(ranges, done, hi, i) ==> emitted(
                ranges,
                done,
                x,
            ),
    decreases ranges.len() - i,
{
    lemma_covers_links(ranges, lo, hi);
    if i < ranges.len() {
        if done[i] < ranges[i].count {
            assert forall|x: int|
                start_of(ranges, hi, i) <= x < checkpoint_from(ranges, done, hi, i) implies emitted(
                ranges,
                done,
                x,
            ) by {
                assert(ranges[i].start <= x < ranges[i].start + done[i]);
            }
        } else {
            lemma_checkpoint_from(ranges, done, lo, hi, i + 1);
            assert(start_of(ranges, hi, i + 1) == ranges[i].end());
            assert forall|x: int|
                start_of(ranges, hi, i) <= x < checkpoint_from(ranges, done, hi, i) implies emitted(
                ranges,
                done,
                x,
            ) by {
                if x < ranges[i].end() {
                    assert(ranges[i].start <= x < ranges[i].start + done[i]);
                }
            }
        }
    }
}

/// The checkpoint lies in `lo .. hi`, and every index below it has been
/// emitted: resuming from it never skips an index.
pub proof fn lemma_checkpoint_sound(ranges: Seq<WorkRange>, done: Seq<u64>, lo: nat, hi: nat)
    requires
        covers(ranges, lo, hi),
        done.len() == ranges.len(),
        forall|j: int| 0 <= j < ranges.len() ==> #[trigger] done[j] <= ranges[j].count,
    ensures
        lo <= checkpoint_of(ranges, done, hi) <= hi,
        forall|x: int| lo <= x < checkpoint_of(ranges, done, hi) ==> emitted(ranges, done, x),
{
    lemma_covers_links(ranges, lo, hi);
    lemma_checkpoint_from(ranges, done, lo, hi, 0);
}

/// Once every range is complete, the checkpoint is the end of the ranges.
pub proof fn lemma_checkpoint_complete(ranges: Seq<WorkRange>, done: Seq<u64>, hi: nat, i: int)
    requires
        done.len() == ranges.len(),
        forall|j: int| 0 <= j < ranges.len() ==> #[trigger] done[j] == ranges[j].count,
        0 <= i <= ranges.len(),
    ensures
        checkpoint_from(ranges, done, hi, i) == hi,
    decreases ranges.len() - i,
{
    if i < ranges.len() {
        lemma_checkpoint_complete(ranges, done, hi, i + 1);
    }
}

/// Resuming after a complete run: a second run started at the first run's
/// final checkpoint, with the whole space as its limit, enumerates exactly
/// the indices that the first run did not reach, so that the two runs
/// together enumerate every index from the first run's resume offset to the
/// end of the space once each, in the order of a single uninterrupted run.
pub proof fn lemma_resume_after_complete_run(
    total: nat,
    limit: Option<u64>,
    offset: u64,
    first_workers: usize,
    first: &RunPlan,
    done: Seq<u64>,
    second_workers: usize,
    second: &RunPlan,
)
    requires
        offset <= total <= u64::MAX,
        is_plan(first, total, limit, offset, first_workers),
        done.len() == first.ranges@.len(),
        forall|j: int| 0 <= j < done.len() ==> #[trigger] done[j] == first.ranges@[j].count,
        is_plan(
            second,
            total,
            Some(total as u64),
            checkpoint_of(first.ranges@, done, plan_end(first)) as u64,
            second_workers,
        ),
    ensures
        checkpoint_of(first.ranges@, done, plan_end(first)) == plan_end(first),
        indices_of(first.ranges@) + indices_of(second.ranges@) == interval(
            offset as int,
            total as int,
        ),
{
    let mid = plan_end(first);
    lemma_checkpoint_complete(first.ranges@, done, mid, 0);
    lemma_covers_indices(first.ranges@, offset as nat, mid);
    lemma_covers_indices(second.ranges@, mid, plan_end(second));
    assert(interval(offset as int, mid as int) + interval(mid as int, total as int) =~= interval(
        offset as int,
        total as int,
    ));
}

/// How far each range of a run has been emitted, for checkpoints that are
/// safe to resume from while the workers still run.
pub struct Progress {
    ranges: Vec<WorkRange>,
    done: Vec<u64>,
    lo: u64,
    hi: u64,
}

impl Progress {
    /// The ranges of the run.
    pub closed spec fn spec_ranges(&self) -> Seq<WorkRange> {
        self.ranges@
    }

    /// How many indices of each range have been emitted.
    pub closed spec fn spec_done(&self) -> Seq<u64> {
        self.done@
    }

    /// The first index of the run.
    pub closed spec fn spec_lo(&self) -> nat {
        self.lo as nat
    }

    /// One past the last index of the run.
    pub closed spec fn spec_hi(&self) -> nat {
        self.hi as nat
    }

    /// The ranges cover the run and no range has emitted more than it holds.
    pub open spec fn wf(&self) -> bool {
        &&& covers(self.spec_ranges(), self.spec_lo(), self.spec_hi())
        &&& self.spec_done().len() == self.spec_ranges().len()
        &&& forall|j: int|
            0 <= j < self.spec_ranges().len() ==> #[trigger] self.spec_done()[j]
                <= self.spec_ranges()[j].count
    }

    /// A tracker for `plan` with nothing emitted yet.
    pub fn new(plan: &RunPlan) -> (p: Progress)
        requires
            covers(plan.ranges@, plan.resume_offset as nat, plan_end(plan)),
        ensures
            p.wf(),
            p.spec_ranges() == plan.ranges@,
            p.spec_lo() == plan.resume_offset,
            p.spec_hi() == plan_end(plan),
            p.spec_done() == Seq::new(plan.ranges@.len(), |_j: int| 0u64),
    {
        let mut ranges: Vec<WorkRange> = Vec::with_capacity(plan.ranges.len());
        let mut done: Vec<u64> = Vec::with_capacity(plan.ranges.len());
        let mut i: usize = 0;
        while i < plan.ranges.len()
            invariant
                i <= plan.ranges@.len(),
                ranges@ == plan.ranges@.subrange(0, i as int),
                done@ == Seq::new(i as nat, |_j: int| 0u64),
            decreases plan.ranges@.len() - i,
        {
            ranges.push(plan.ranges[i]);
            done.push(0);
            i = i + 1;
            assert(ranges@ =~= plan.ranges@.subrange(0, i as int));
            assert(done@ =~= Seq::new(i as nat, |_j: int| 0u64));
        }
        assert(ranges@ =~= plan.ranges@);
        let hi = if plan.resume_offset < plan.effective_total {
            plan.effective_total
        } else {
            plan.resume_offset
        };
        Progress { ranges, done, lo: plan.resume_offset, hi }
    }

    /// Records that range `worker` has emitted `n` more indices. Refuses,
    /// and changes nothing, when there is no such range or it holds fewer
    /// indices than that.
    pub fn record(&mut self, worker: usize, n: u64) -> (ok: bool)
        requires
            old(self).wf(),
        ensures
            final(self).wf(),
            final(self).spec_ranges() == old(self).spec_ranges(),
            final(self).spec_lo() == old(self).spec_lo(),
            final(self).spec_hi() == old(self).spec_hi(),
            ok == (worker < old(self).spec_ranges().len() && old(self).spec_done()[worker as int]
                + n <= old(self).spec_ranges()[worker as int].count),
            ok ==> final(self).spec_done() == old(self).spec_done().update(
                worker as int,
                (old(self).spec_done()[worker as int] + n) as u64,
            ),
            !ok ==> final(self).spec_done() == old(self).spec_done(),
    {
        if worker >= self.done.len() {
            return false;
        }
        let d = self.done[worker];
        if n > self.ranges[worker].count - d {
            return false;
        }
        self.done[worker] = d + n;
        proof {
            assert forall|j: int| 0 <= j < self.spec_ranges().len() implies #[trigger] self.spec_done()[j]
                <= self.spec_ranges()[j].count by {
                if j != worker {
                    assert(self.spec_done()[j] == old(self).spec_done()[j]);
                }
            }
        }
        true
    }

    /// The checkpoint: every index below it has been emitted, so a run that
    /// resumes there skips nothing. Once every range is complete it is the
    /// end of the run.
    pub fn checkpoint(&self) -> (r: u64)
        requires
            self.wf(),
        ensures
            r == checkpoint_of(self.spec_ranges(), self.spec_done(), self.spec_hi()),
            self.spec_lo() <= r <= self.spec_hi(),
            forall|x: int|
                self.spec_lo() <= x < r ==> emitted(self.spec_ranges(), self.spec_done(), x),
    {
        proof {
            lemma_checkpoint_sound(self.ranges@, self.done@, self.lo as nat, self.hi as nat);
        }
        let mut i: usize = 0;
        while i < self.ranges.len()
            invariant
                self.wf(),
                i <= self.ranges@.len(),
                self.lo <= checkpoint_of(self.ranges@, self.done@, self.hi as nat) <= self.hi,
                forall|x: int|
                    self.lo <= x < checkpoint_of(self.ranges@, self.done@, self.hi as nat)
                        ==> emitted(self.ranges@, self.done@, x),
                checkpoint_of(self.ranges@, self.done@, self.hi as nat) == checkpoint_from(
                    self.ranges@,
                    self.done@,
                    self.hi as nat,
                    i as int,
                ),
            decreases self.ranges@.len() - i,
        {
            let r = self.ranges[i];
            let d = self.done[i];
            if d < r.count {
                return r.start + d;
            }
            i = i + 1;
        }
        self.hi
    }
}

} // verus!
