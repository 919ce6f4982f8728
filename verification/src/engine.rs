//! The executable tick-driven engine.
//!
//! A [`SimContext`] owns the whole state of one simulation run; the arena
//! of jobs is indexed by position, and the ready queue and the running job
//! hold indices into it, so every view of a job sees the same counters.
//! One call of [`tick_exec`] performs exactly one tick of the mathematical
//! model: its result state is proved equal to [`step`] of the old state.

use vstd::prelude::*;

use crate::job::{jobs_view, CPUStatus, Job, JobView};
use crate::props::{
    cur_live, inv, inv_mid, lemma_admit_all, lemma_admitted_job_facts, lemma_dispatch_mid,
    lemma_rr_preempt_mid, lemma_service_final, lemma_srt_preempt_mid, lemma_step_inv, tick_driven,
};
use crate::sim::{
    admit_all, can_admit, dispatch, dispatch_queue, rr_preempt, service, srt_preempt, step,
    Algorithm, SegI, SimState,
};
use crate::sort::{lemma_sort_indices_entries, lemma_sort_indices_multiset, sorted_indices, SortKey};

verus! {

/// The view of one recorded timeline entry: which job ran, from which
/// tick, to which tick.
pub open spec fn seg_view(e: (usize, u32, u32)) -> SegI {
    SegI { job: e.0, start: e.1 as int, end: e.2 as int }
}

/// The views of the recorded timeline.
pub open spec fn segs_view(t: Seq<(usize, u32, u32)>) -> Seq<SegI> {
    t.map_values(|e: (usize, u32, u32)| seg_view(e))
}

/// The whole mutable state of one simulation run, owned exclusively by
/// that run. The queue and the running job hold indices into the job
/// arena, never copies of jobs.
pub struct SimContext {
    pub jobs: Vec<Job>,
    pub order: Vec<usize>,
    pub arrived: usize,
    pub queue: Vec<usize>,
    pub current: Option<usize>,
    pub seg_start: u32,
    pub finished: usize,
    pub tick: u32,
    pub timeline: Vec<(usize, u32, u32)>,
}

impl View for SimContext {
    type V = SimState;

    open spec fn view(&self) -> SimState {
        SimState {
            jobs: jobs_view(self.jobs@),
            order: self.order@,
            arrived: self.arrived as int,
            queue: self.queue@,
            current: self.current,
            seg_start: self.seg_start as int,
            finished: self.finished as int,
            tick: self.tick as int,
            timeline: segs_view(self.timeline@),
        }
    }
}

impl SimContext {
    /// Whether the simulated CPU currently serves a job.
    pub fn cpu_status(&self) -> (status: CPUStatus)
        ensures
            status == (match self@.current {
                Some(_) => CPUStatus::Working,
                None => CPUStatus::Idle,
            }),
    {
        match self.current {
            Some(_) => CPUStatus::Working,
            None => CPUStatus::Idle,
        }
    }
}

/// Updating one job of the arena updates its view pointwise.
proof fn lemma_jobs_view_update(jobs: Seq<Job>, i: int, j: Job)
    requires
        0 <= i < jobs.len(),
    ensures
        jobs_view(jobs.update(i, j)) =~= jobs_view(jobs).update(i, j@),
{
}

/// Recording one segment appends its view to the timeline's view.
proof fn lemma_segs_view_push(t: Seq<(usize, u32, u32)>, e: (usize, u32, u32))
    ensures
        segs_view(t.push(e)) =~= segs_view(t).push(seg_view(e)),
{
}

/// Admits every job that has arrived by the present tick, in arrival
/// order.
fn admit_exec(ctx: &mut SimContext)
    requires
        0 <= old(ctx)@.arrived <= old(ctx)@.order.len(),
        forall|k: int|
            0 <= k < old(ctx)@.order.len() ==> #[trigger] old(ctx)@.order[k] < old(
                ctx,
            )@.jobs.len(),
    ensures
        final(ctx)@ == admit_all(old(ctx)@),
{
    while ctx.arrived < ctx.order.len() && ctx.jobs[ctx.order[ctx.arrived]].arrival_time
        <= ctx.tick
        invariant
            0 <= ctx@.arrived <= ctx@.order.len(),
            forall|k: int|
                0 <= k < ctx@.order.len() ==> #[trigger] ctx@.order[k] < ctx@.jobs.len(),
            admit_all(ctx@) == admit_all(old(ctx)@),
        decreases ctx@.order.len() - ctx@.arrived,
    {
        let ghost pre = ctx@;
        let x = ctx.order[ctx.arrived];
        ctx.queue.push(x);
        ctx.arrived = ctx.arrived + 1;
        proof {
            assert(can_admit(pre));
            assert(ctx@ == SimState { queue: pre.queue.push(x), arrived: pre.arrived + 1, ..pre });
        }
    }
    proof {
        assert(!can_admit(ctx@));
    }
}

/// If the CPU is idle and the queue is nonempty, reorders the queue as
/// the policy asks and dispatches its head.
fn dispatch_exec(ctx: &mut SimContext, alg: Algorithm, Ghost(jobs0): Ghost<Seq<JobView>>)
    requires
        tick_driven(alg),
        inv(alg, old(ctx)@, jobs0),
    ensures
        final(ctx)@ == dispatch(alg, old(ctx)@),
{
    let ghost s1 = ctx@;
    if ctx.current.is_none() && ctx.queue.len() > 0 {
        proof {
            assert forall|i: int| 0 <= i < ctx.queue@.len() implies #[trigger] ctx.queue@[i]
                < ctx.jobs@.len() by {
                assert(ctx.queue@.contains(ctx.queue@[i]));
            }
        }
        match alg {
            Algorithm::ShortestJobNext => {
                proof {
                    lemma_sort_indices_multiset(s1.queue, s1.jobs, SortKey::Needed);
                }
                let sorted = sorted_indices(&ctx.queue, &ctx.jobs, SortKey::Needed);
                ctx.queue = sorted;
            },
            Algorithm::ShortestRemainingTime => {
                proof {
                    lemma_sort_indices_multiset(s1.queue, s1.jobs, SortKey::Remaining);
                }
                let sorted = sorted_indices(&ctx.queue, &ctx.jobs, SortKey::Remaining);
                ctx.queue = sorted;
            },
            _ => {},
        }
        proof {
            assert(ctx.queue@ == dispatch_queue(alg, s1));
            assert(ctx.queue@.len() == s1.queue.len());
        }
        let c = ctx.queue.remove(0);
        ctx.current = Some(c);
        ctx.seg_start = ctx.tick;
        proof {
            assert(ctx.queue@ =~= dispatch_queue(alg, s1).drop_first());
            assert(ctx@ == dispatch(alg, s1));
        }
    }
}

/// The shortest-remaining-time preemption check: reorder the queue by
/// remaining time and swap the running job for the head when the head has
/// strictly less remaining time.
fn srt_preempt_exec(ctx: &mut SimContext, Ghost(jobs0): Ghost<Seq<JobView>>)
    requires
        inv_mid(Algorithm::ShortestRemainingTime, old(ctx)@, jobs0),
    ensures
        final(ctx)@ == srt_preempt(old(ctx)@),
{
    let ghost s2 = ctx@;
    if let Some(c) = ctx.current {
        proof {
            assert(c < ctx.jobs@.len());
            assert forall|i: int| 0 <= i < ctx.queue@.len() implies #[trigger] ctx.queue@[i]
                < ctx.jobs@.len() by {
                assert(ctx.queue@.contains(ctx.queue@[i]));
            }
        }
        let sorted = sorted_indices(&ctx.queue, &ctx.jobs, SortKey::Remaining);
        ctx.queue = sorted;
        proof {
            lemma_sort_indices_entries(s2.queue, s2.jobs, SortKey::Remaining);
            assert forall|i: int| 0 <= i < ctx.queue@.len() implies #[trigger] ctx.queue@[i]
                < ctx.jobs@.len() by {
                assert(ctx.queue@.contains(ctx.queue@[i]));
                assert(s2.queue.contains(ctx.queue@[i]));
            }
        }
        if ctx.queue.len() > 0 && ctx.jobs[c].remaining_cpu_cycle > 0
            && ctx.jobs[c].remaining_cpu_cycle > ctx.jobs[ctx.queue[0]].remaining_cpu_cycle {
            let ghost tl_raw = ctx.timeline@;
            let e = (c, ctx.seg_start, ctx.tick);
            ctx.timeline.push(e);
            let h = ctx.queue.remove(0);
            ctx.queue.push(c);
            ctx.current = Some(h);
            ctx.seg_start = ctx.tick;
            proof {
                lemma_segs_view_push(tl_raw, e);
            }
        }
        proof {
            assert(ctx@.timeline =~= srt_preempt(s2).timeline);
            assert(ctx@.queue =~= srt_preempt(s2).queue);
            assert(ctx@ == srt_preempt(s2));
        }
    }
}

/// The round-robin preemption check: when the tick is a quantum boundary
/// and the running job was not dispatched this very tick, requeue it at
/// the back and dispatch the head.
fn rr_preempt_exec(
    ctx: &mut SimContext,
    time_quantum: u32,
    just_dispatched: bool,
    Ghost(jobs0): Ghost<Seq<JobView>>,
)
    requires
        time_quantum >= 1,
        inv_mid(Algorithm::RoundRobin { time_quantum }, old(ctx)@, jobs0),
    ensures
        final(ctx)@ == rr_preempt(old(ctx)@, time_quantum as int, just_dispatched),
{
    let ghost s2 = ctx@;
    if let Some(c) = ctx.current {
        if ctx.tick % time_quantum == 0 && !just_dispatched && ctx.queue.len() > 0 {
            let ghost tl_raw = ctx.timeline@;
            let e = (c, ctx.seg_start, ctx.tick);
            ctx.timeline.push(e);
            let h = ctx.queue.remove(0);
            ctx.queue.push(c);
            ctx.current = Some(h);
            ctx.seg_start = ctx.tick;
            proof {
                lemma_segs_view_push(tl_raw, e);
                assert(ctx@.queue =~= rr_preempt(s2, time_quantum as int, just_dispatched).queue);
            }
        }
        proof {
            assert(ctx@ == rr_preempt(s2, time_quantum as int, just_dispatched));
        }
    }
}

/// One unit of CPU service: decrement the running job's remaining time;
/// on completion, close its segment and record its metrics.
fn service_exec(ctx: &mut SimContext, alg: Algorithm, Ghost(jobs0): Ghost<Seq<JobView>>)
    requires
        tick_driven(alg),
        inv_mid(alg, old(ctx)@, jobs0),
        old(ctx)@.tick < u32::MAX,
    ensures
        final(ctx)@ == service(alg, old(ctx)@),
{
    let ghost s3 = ctx@;
    if let Some(c) = ctx.current {
        proof {
            assert(c < ctx.jobs@.len());
            lemma_admitted_job_facts(s3, jobs0, c);
        }
        let ghost jobs_raw_a = ctx.jobs@;
        let rem = ctx.jobs[c].remaining_cpu_cycle;
        if rem > 0 {
            ctx.jobs[c].remaining_cpu_cycle = rem - 1;
            proof {
                lemma_jobs_view_update(jobs_raw_a, c as int, ctx.jobs@[c as int]);
            }
        }
        let ghost jobs1 = jobs_view(ctx.jobs@);
        proof {
            assert(jobs1 =~= (if s3.jobs[c as int].remaining > 0 {
                s3.jobs.update(
                    c as int,
                    JobView { remaining: s3.jobs[c as int].remaining - 1, ..s3.jobs[c as int] },
                )
            } else {
                s3.jobs
            }));
        }
        if ctx.jobs[c].remaining_cpu_cycle == 0 {
            let seg_hi = ctx.tick + 1;
            let seg_lo = match alg {
                Algorithm::ShortestJobNext => {
                    proof {
                        assert(s3.jobs[c as int].needed - s3.jobs[c as int].remaining == s3.tick
                            - s3.seg_start);
                    }
                    seg_hi - ctx.jobs[c].needed_cpu_cycle
                },
                _ => ctx.seg_start,
            };
            let ghost tl_raw = ctx.timeline@;
            let e = (c, seg_lo, seg_hi);
            ctx.timeline.push(e);
            proof {
                lemma_segs_view_push(tl_raw, e);
            }
            let arr = ctx.jobs[c].arrival_time;
            let ghost jobs_raw_b = ctx.jobs@;
            ctx.jobs[c].completion_time = ctx.tick + 1;
            proof {
                lemma_jobs_view_update(jobs_raw_b, c as int, ctx.jobs@[c as int]);
            }
            let ghost jobs_raw_c = ctx.jobs@;
            ctx.jobs[c].turnaround_time = (ctx.tick + 1) - arr;
            proof {
                lemma_jobs_view_update(jobs_raw_c, c as int, ctx.jobs@[c as int]);
                assert(jobs_view(ctx.jobs@) =~= jobs1.update(
                    c as int,
                    JobView {
                        completion: s3.tick + 1,
                        turnaround: s3.tick + 1 - jobs1[c as int].arrival,
                        ..jobs1[c as int]
                    },
                ));
            }
            ctx.finished = ctx.finished + 1;
            ctx.current = None;
        }
        proof {
            assert(ctx@.jobs =~= service(alg, s3).jobs);
            assert(ctx@.timeline =~= service(alg, s3).timeline);
            assert(ctx@ == service(alg, s3));
        }
    }
}

/// One tick of the simulation: admission, dispatch, the policy's
/// preemption check, one unit of service, and the clock advance. The new
/// state is exactly [`step`] of the old one, and the run invariant is
/// preserved.
pub(crate) fn tick_exec(ctx: &mut SimContext, alg: Algorithm, Ghost(jobs0): Ghost<Seq<JobView>>)
    requires
        tick_driven(alg),
        inv(alg, old(ctx)@, jobs0),
        old(ctx)@.finished < old(ctx)@.order.len(),
        old(ctx)@.tick < u32::MAX,
    ensures
        final(ctx)@ == step(alg, old(ctx)@),
        inv(alg, final(ctx)@, jobs0),
        final(ctx)@.tick == old(ctx)@.tick + 1,
{
    let ghost s0 = ctx@;
    proof {
        lemma_step_inv(alg, s0, jobs0);
        lemma_admit_all(alg, s0, jobs0);
    }
    admit_exec(ctx);
    let ghost s1 = ctx@;
    proof {
        assert(s1 == admit_all(s0));
        lemma_dispatch_mid(alg, s1, jobs0);
    }
    let just_dispatched = ctx.current.is_none() && ctx.queue.len() > 0;
    dispatch_exec(ctx, alg, Ghost(jobs0));
    let ghost s2 = ctx@;
    proof {
        assert(s2 == dispatch(alg, s1));
    }
    match alg {
        Algorithm::ShortestRemainingTime => {
            proof {
                lemma_srt_preempt_mid(s2, jobs0);
            }
            srt_preempt_exec(ctx, Ghost(jobs0));
        },
        Algorithm::RoundRobin { time_quantum } => {
            proof {
                if !just_dispatched {
                    assert(cur_live(s2)) by {
                        if s1.current is Some {
                            assert(s2 == s1);
                        }
                    }
                }
                lemma_rr_preempt_mid(s2, jobs0, time_quantum, just_dispatched);
            }
            rr_preempt_exec(ctx, time_quantum, just_dispatched, Ghost(jobs0));
        },
        _ => {},
    }
    let ghost s3 = ctx@;
    proof {
        assert(s3 == (match alg {
            Algorithm::ShortestRemainingTime => srt_preempt(s2),
            Algorithm::RoundRobin { time_quantum } => rr_preempt(
                s2,
                time_quantum as int,
                just_dispatched,
            ),
            _ => s2,
        }));
        assert(inv_mid(alg, s3, jobs0));
        if s3.current is None {
            assert(s2.current is None);
            assert(s1.current is None && s1.queue.len() == 0);
        }
        lemma_service_final(alg, s3, jobs0);
    }
    service_exec(ctx, alg, Ghost(jobs0));
    ctx.tick = ctx.tick + 1;
    proof {
        assert(ctx@ == step(alg, s0));
    }
}

} // verus!
