//! Work partitioning: contiguous, non-empty ranges of indices, one per worker.
use vstd::prelude::*;

use crate::space::Space;

verus! {

/// The indices `start .. start + count`, handed to one worker.
#[derive(Debug, Clone, Copy, PartialEq, Eq, Structural)]
pub struct WorkRange {
    pub start: u64,
    pub count: u64,
}

impl WorkRange {
    /// One past the last index of the range.
    pub open spec fn end(&self) -> nat {
        (self.start + self.count) as nat
    }
}

/// The integers `lo .. hi`, in increasing order.
pub open spec fn interval(lo: int, hi: int) -> Seq<int> {
    Seq::new((hi - lo) as nat, |i: int| lo + i)
}

/// The indices of `ranges`, range after range, each in increasing order.
pub open spec fn indices_of(ranges: Seq<WorkRange>) -> Seq<int>
    decreases ranges.len(),
{
    if ranges.len() == 0 {
        Seq::empty()
    } else {
        indices_of(ranges.drop_last()) + interval(
            ranges.last().start as int,
            ranges.last().end() as int,
        )
    }
}

/// `ranges` are non-empty and follow one another without gap or overlap,
/// from `lo` up to `hi`.
pub open spec fn covers(ranges: Seq<WorkRange>, lo: nat, hi: nat) -> bool
    decreases ranges.len(),
{
    if ranges.len() == 0 {
        lo == hi
    } else {
        &&& ranges.last().count > 0
        &&& ranges.last().end() == hi
        &&& covers(ranges.drop_last(), lo, ranges.last().start as nat)
    }
}

/// The number of workers that get work: never more than there are indices.
pub open spec fn workers_used(remaining: nat, workers: nat) -> nat {
    if remaining < workers {
        remaining
    } else {
        workers
    }
}

/// The share of worker `t`: the even share, plus one for each of the
/// first `remaining % w` workers.
pub open spec fn share_of(remaining: nat, w: nat, t: int) -> nat {
    if t < remaining % w {
        remaining / w + 1
    } else {
        remaining / w
    }
}

/// Ranges that cover `lo .. hi` hold exactly those indices, once each, in order.
pub proof fn lemma_covers_indices(ranges: Seq<WorkRange>, lo: nat, hi: nat)
    requires
        covers(ranges, lo, hi),
    ensures
        lo <= hi,
        indices_of(ranges) == interval(lo as int, hi as int),
        forall|i: int| 0 <= i < ranges.len() ==> lo <= (#[trigger] ranges[i]).start,
    decreases ranges.len(),
{
    if ranges.len() == 0 {
        assert(interval(lo as int, hi as int) =~= Seq::<int>::empty());
    } else {
        let r = ranges.last();
        let pre = ranges.drop_last();
        lemma_covers_indices(pre, lo, r.start as nat);
        assert(interval(lo as int, r.start as int) + interval(r.start as int, hi as int)
            =~= interval(lo as int, hi as int));
        assert forall|i: int| 0 <= i < ranges.len() implies lo <= (#[trigger] ranges[i]).start by {
            if i < ranges.len() - 1 {
                assert(ranges[i] == pre[i]);
            }
        }
    }
}

/// The ranges that cover `lo .. hi`, read index by index.
pub proof fn lemma_covers_links(ranges: Seq<WorkRange>, lo: nat, hi: nat)
    requires
        covers(ranges, lo, hi),
    ensures
        ranges.len() == 0 ==> lo == hi,
        ranges.len() > 0 ==> ranges[0].start == lo && ranges.last().end() == hi,
        forall|j: int|
            0 <= j < ranges.len() - 1 ==> (#[trigger] ranges[j]).end() == ranges[j + 1].start,
        forall|j: int|
            0 <= j < ranges.len() ==> (#[trigger] ranges[j]).count > 0 && lo <= ranges[j].start
                && ranges[j].end() <= hi,
    decreases ranges.len(),
{
    if ranges.len() > 0 {
        let n = ranges.len() as int;
        let pre = ranges.drop_last();
        let r = ranges[n - 1];
        assert(r == ranges.last());
        lemma_covers_links(pre, lo, r.start as nat);
        assert(lo <= r.start) by {
            if pre.len() > 0 {
                assert(pre[pre.len() - 1] == pre.last());
            }
        }
        assert forall|j: int| 0 <= j < n - 1 implies (#[trigger] ranges[j]).end()
            == ranges[j + 1].start by {
            assert(ranges[j] == pre[j]);
            if j < n - 2 {
                assert(ranges[j + 1] == pre[j + 1]);
                assert(pre[j].end() == pre[j + 1].start);
            } else {
                assert(pre[j] == pre.last());
            }
        }
        assert forall|j: int| 0 <= j < n implies (#[trigger] ranges[j]).count > 0
            && lo <= ranges[j].start && ranges[j].end() <= hi by {
            if j < n - 1 {
                assert(ranges[j] == pre[j]);
                assert(pre[j].count > 0 && lo <= pre[j].start && pre[j].end() <= r.start);
            }
        }
        if pre.len() > 0 {
            assert(ranges[0] == pre[0]);
        }
    }
}

/// Splits `offset .. offset + remaining` among at most `workers` workers:
/// as many workers as there are indices when those are fewer, each range
/// holds the even share, the first `remaining % w` one more, in order.
pub fn partition(offset: u64, remaining: u64, workers: usize) -> (ranges: Vec<WorkRange>)
    requires
        workers >= 1,
        offset + remaining <= u64::MAX,
    ensures
        ranges@.len() == workers_used(remaining as nat, workers as nat),
        ranges@.len() <= remaining,
        forall|t: int|
            0 <= t < ranges@.len() ==> (#[trigger] ranges@[t]).count == share_of(
                remaining as nat,
                ranges@.len(),
                t,
            ),
        forall|t: int| 0 <= t < ranges@.len() ==> (#[trigger] ranges@[t]).count > 0,
        ranges@.len() > 0 ==> ranges@[0].start == offset && ranges@.last().end() == offset
            + remaining,
        forall|t: int|
            0 <= t < ranges@.len() - 1 ==> (#[trigger] ranges@[t]).end() == ranges@[t + 1].start,
        covers(ranges@, offset as nat, (offset + remaining) as nat),
        indices_of(ranges@) == interval(offset as int, offset + remaining),
{
    let w: usize = if remaining < workers as u64 {
        remaining as usize
    } else {
        workers
    };
    let mut ranges: Vec<WorkRange> = Vec::with_capacity(w);
    if w == 0 {
        proof {
            lemma_covers_indices(ranges@, offset as nat, offset as nat);
        }
        return ranges;
    }
    let q: u64 = remaining / (w as u64);
    let x: u64 = remaining % (w as u64);
    proof {
        assert(remaining == (w as u64) * q + x) by (nonlinear_arith)
            requires
                w > 0,
                q == remaining / (w as u64),
                x == remaining % (w as u64),
        ;
        assert(q >= 1) by (nonlinear_arith)
            requires
                w > 0,
                w <= remaining,
                q == remaining / (w as u64),
        ;
    }
    let mut start: u64 = offset;
    let mut t: usize = 0;
    while t < w
        invariant
            w >= 1,
            t <= w,
            w as nat == workers_used(remaining as nat, workers as nat),
            q == remaining as nat / w as nat,
            x == remaining as nat % w as nat,
            remaining == (w as u64) * q + x,
            q >= 1,
            x < w,
            offset + remaining <= u64::MAX,
            start == offset + t * q + (if t < x {
                t as int
            } else {
                x as int
            }),
            ranges@.len() == t,
            forall|i: int|
                0 <= i < t ==> (#[trigger] ranges@[i]).count == share_of(
                    remaining as nat,
                    w as nat,
                    i,
                ),
            covers(ranges@, offset as nat, start as nat),
        decreases w - t,
    {
        assert(x > 0 ==> q < u64::MAX) by (nonlinear_arith)
            requires
                remaining == (w as u64) * q + x,
                w >= 1,
                remaining <= u64::MAX,
        ;
        let count: u64 = if (t as u64) < x {
            q + 1
        } else {
            q
        };
        proof {
            assert((t + 1) * q <= w * q) by (nonlinear_arith)
                requires
                    t + 1 <= w,
            ;
            assert((t + 1) * q == t * q + q) by (nonlinear_arith);
        }
        let r = WorkRange { start, count };
        let ghost before = ranges@;
        ranges.push(r);
        start = start + count;
        t = t + 1;
        proof {
            assert(ranges@.drop_last() =~= before);
            assert forall|i: int|
                0 <= i < t implies (#[trigger] ranges@[i]).count == share_of(
                remaining as nat,
                w as nat,
                i,
            ) by {
                if i < t - 1 {
                    assert(ranges@[i] == before[i]);
                }
            }
        }
    }
    proof {
        lemma_covers_indices(ranges@, offset as nat, start as nat);
        lemma_covers_links(ranges@, offset as nat, start as nat);
    }
    ranges
}

/// The number of indices a run covers: the whole space, or the limit when
/// it is smaller.
pub open spec fn effective_total_spec(total: nat, limit: Option<u64>) -> nat {
    match limit {
        Some(l) => if l < total {
            l as nat
        } else {
            total
        },
        None => total,
    }
}

/// The total clamped by the limit, if there is one.
pub fn effective_total(total: u64, limit: Option<u64>) -> (r: u64)
    ensures
        r == effective_total_spec(total as nat, limit),
{
    match limit {
        Some(l) => if l < total {
            l
        } else {
            total
        },
        None => total,
    }
}

/// What a run does: the indices `resume_offset .. effective_total`, split
/// into one range per worker. No ranges means nothing to do.
#[derive(Debug, PartialEq, Eq)]
pub struct RunPlan {
    pub resume_offset: u64,
    pub effective_total: u64,
    pub ranges: Vec<WorkRange>,
}

/// One past the last index a plan reaches: its effective total, or its
/// resume offset when that lies at or past it.
pub open spec fn plan_end(plan: &RunPlan) -> nat {
    if plan.resume_offset < plan.effective_total {
        plan.effective_total as nat
    } else {
        plan.resume_offset as nat
    }
}

/// `plan` is the plan of a run over `total` indices from `resume` under
/// `limit` with `workers` workers (zero taken as one): the effective total is
/// the clamped limit, the ranges cover `resume .. plan_end(plan)` and split
/// it evenly among as many workers as can get work.
pub open spec fn is_plan(
    plan: &RunPlan,
    total: nat,
    limit: Option<u64>,
    resume: u64,
    workers: usize,
) -> bool {
    let remaining = (plan_end(plan) - resume) as nat;
    let w = if workers == 0 {
        1nat
    } else {
        workers as nat
    };
    &&& plan.resume_offset == resume
    &&& plan.effective_total == effective_total_spec(total, limit)
    &&& plan.ranges@.len() == workers_used(remaining, w)
    &&& forall|t: int|
        0 <= t < plan.ranges@.len() ==> (#[trigger] plan.ranges@[t]).count == share_of(
            remaining,
            plan.ranges@.len(),
            t,
        )
    &&& covers(plan.ranges@, resume as nat, plan_end(plan))
}

/// Plans a run over `space` from `resume` under `limit` with `workers`
/// workers (zero is taken as one). A resume point at or past the effective
/// total leaves nothing to do: no ranges.
pub fn plan_run(space: &Space, limit: Option<u64>, resume: u64, workers: usize) -> (plan: RunPlan)
    requires
        space.wf(),
    ensures
        is_plan(&plan, space.spec_total(), limit, resume, workers),
        plan.ranges@.len() == 0 <==> plan.effective_total <= resume,
{
    let eff = effective_total(space.total(), limit);
    let w: usize = if workers == 0 {
        1
    } else {
        workers
    };
    if resume >= eff {
        return RunPlan { resume_offset: resume, effective_total: eff, ranges: Vec::new() };
    }
    let ranges = partition(resume, eff - resume, w);
    RunPlan { resume_offset: resume, effective_total: eff, ranges }
}

/// Relies on `num_cpus::get`: the number of logical CPUs this process may
/// use, which its documentation promises is at least one.
#[verifier::external_body]
fn host_parallelism() -> (n: usize)
    ensures
        n >= 1,
{
    num_cpus::get()
}

/// The worker count: the one requested, else the host's parallelism
/// `available`; never below one.
pub fn choose_workers(requested: Option<usize>, available: usize) -> (n: usize)
    ensures
        n == (match requested {
            Some(r) => if r == 0 {
                1
            } else {
                r
            },
            None => if available == 0 {
                1
            } else {
                available
            },
        }),
{
    let n = match requested {
        Some(r) => r,
        None => available,
    };
    if n == 0 {
        1
    } else {
        n
    }
}

/// The worker count: the one requested, else as many as the host offers.
pub fn default_workers(requested: Option<usize>) -> (n: usize)
    ensures
        n >= 1,
        requested is Some && requested->0 > 0 ==> n == requested->0,
        requested == Some(0usize) ==> n == 1,
{
    match requested {
        Some(_) => choose_workers(requested, 1),
        None => {
            let available = host_parallelism();
            choose_workers(None, available)
        },
    }
}

} // verus!
