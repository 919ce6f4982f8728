//! The mathematical model of the scheduling engine.
//!
//! A simulation run is a sequence of ticks over a [`SimState`]: at every
//! tick the engine admits newly arrived jobs into the ready queue, possibly
//! dispatches or preempts, serves the running job for one time unit, and
//! records timeline segments as jobs are preempted or finish. The spec
//! functions here define one tick (`step`) and a whole run (`run`) as pure
//! functions of the state, so that the executable engine can be proved to
//! compute exactly this function.

use vstd::prelude::*;

use crate::job::JobView;
use crate::sort::{sort_indices, SortKey};

verus! {

/// The scheduling policy a simulation run uses.
#[derive(Clone, Copy, Debug, PartialEq, Eq, Structural)]
pub enum Algorithm {
    /// Demonstration mode: segments of random length in arrival order.
    RandomOrder,
    FirstComeFirstServe,
    ShortestJobNext,
    ShortestRemainingTime,
    RoundRobin { time_quantum: u32 },
}

/// Why a simulation run was refused or aborted.
#[derive(Clone, Copy, Debug, PartialEq, Eq, Structural)]
pub enum SchedulerError {
    /// The algorithm name is not one of the five known names.
    UnknownAlgorithm,
    /// Round robin was selected with a time quantum of zero.
    InvalidTimeQuantum,
    /// The tick-bound safety check tripped: the run did not finish within
    /// twice the expected total time.
    TickBoundExceeded,
}

/// One recorded timeline segment: the job at arena index `job` occupied
/// the CPU during the half-open tick interval `[start, end)`.
pub struct SegI {
    pub job: usize,
    pub start: int,
    pub end: int,
}

/// The whole state of a tick-driven simulation run.
///
/// `jobs` is the arena, in the caller's original order; `order` lists the
/// arena indices sorted by arrival time; `arrived` counts how many entries
/// of `order` have been admitted; `queue` holds the admitted, unfinished,
/// not-running arena indices; `current` is the running job, if any, and
/// `seg_start` the tick its current segment began.
pub struct SimState {
    pub jobs: Seq<JobView>,
    pub order: Seq<usize>,
    pub arrived: int,
    pub queue: Seq<usize>,
    pub current: Option<usize>,
    pub seg_start: int,
    pub finished: int,
    pub tick: int,
    pub timeline: Seq<SegI>,
}

/// Whether the next not-yet-admitted job (if any) has arrived by `s.tick`.
pub open spec fn can_admit(s: SimState) -> bool {
    0 <= s.arrived < s.order.len() && s.jobs[s.order[s.arrived] as int].arrival <= s.tick
}

/// Admits every not-yet-admitted job whose arrival time has been reached,
/// in arrival order.
pub open spec fn admit_all(s: SimState) -> SimState
    decreases s.order.len() - s.arrived,
{
    if can_admit(s) {
        admit_all(
            SimState { queue: s.queue.push(s.order[s.arrived]), arrived: s.arrived + 1, ..s },
        )
    } else {
        s
    }
}

/// The order in which the ready queue is considered on dispatch: shortest
/// job next reorders by required CPU time, shortest remaining time by
/// remaining CPU time, and the other policies keep the queue order.
pub open spec fn dispatch_queue(alg: Algorithm, s: SimState) -> Seq<usize> {
    match alg {
        Algorithm::ShortestJobNext => sort_indices(s.queue, s.jobs, SortKey::Needed),
        Algorithm::ShortestRemainingTime => sort_indices(s.queue, s.jobs, SortKey::Remaining),
        _ => s.queue,
    }
}

/// If the CPU is idle and the queue is nonempty, pops the head of the
/// (policy-ordered) queue as the new running job and opens its segment.
pub open spec fn dispatch(alg: Algorithm, s: SimState) -> SimState {
    if s.current is None && s.queue.len() > 0 {
        let q = dispatch_queue(alg, s);
        SimState { queue: q.drop_first(), current: Some(q[0]), seg_start: s.tick, ..s }
    } else {
        s
    }
}

/// The shortest-remaining-time preemption check: the queue is reordered by
/// remaining CPU time every tick, and if its head has strictly less
/// remaining time than the running job, the running job's segment is closed
/// at the present tick and it swaps places with the head.
pub open spec fn srt_preempt(s: SimState) -> SimState {
    match s.current {
        Some(c) => {
            let q = sort_indices(s.queue, s.jobs, SortKey::Remaining);
            if q.len() > 0 && s.jobs[c as int].remaining > 0 && s.jobs[c as int].remaining
                > s.jobs[q[0] as int].remaining {
                SimState {
                    timeline: s.timeline.push(
                        SegI { job: c, start: s.seg_start, end: s.tick },
                    ),
                    queue: q.drop_first().push(c),
                    current: Some(q[0]),
                    seg_start: s.tick,
                    ..s
                }
            } else {
                SimState { queue: q, ..s }
            }
        },
        None => s,
    }
}

/// The round-robin preemption check: due when the tick is a multiple of
/// the time quantum, except on the very tick the running job was
/// dispatched. When due and the queue is nonempty, the running job's
/// segment is closed, it is requeued at the back, and the queue head takes
/// over.
pub open spec fn rr_preempt(s: SimState, time_quantum: int, just_dispatched: bool) -> SimState {
    match s.current {
        Some(c) => {
            if s.tick % time_quantum == 0 && !just_dispatched && s.queue.len() > 0 {
                SimState {
                    timeline: s.timeline.push(
                        SegI { job: c, start: s.seg_start, end: s.tick },
                    ),
                    queue: s.queue.drop_first().push(c),
                    current: Some(s.queue[0]),
                    seg_start: s.tick,
                    ..s
                }
            } else {
                s
            }
        },
        None => s,
    }
}

/// One tick of CPU service: the running job's remaining time decreases by
/// one; if it reaches zero the job is finished, its segment is closed at
/// `tick + 1`, and its completion and turnaround times are recorded.
///
/// Shortest job next runs jobs without interruption, so it closes the
/// segment `[completion - needed, completion)`; the preemptive policies
/// close the segment that began at `seg_start`.
pub open spec fn service(alg: Algorithm, s: SimState) -> SimState {
    match s.current {
        Some(c) => {
            let ci = c as int;
            let jobs1 = if s.jobs[ci].remaining > 0 {
                s.jobs.update(ci, JobView { remaining: s.jobs[ci].remaining - 1, ..s.jobs[ci] })
            } else {
                s.jobs
            };
            if jobs1[ci].remaining == 0 {
                let seg = match alg {
                    Algorithm::ShortestJobNext => SegI {
                        job: c,
                        start: s.tick + 1 - jobs1[ci].needed,
                        end: s.tick + 1,
                    },
                    _ => SegI { job: c, start: s.seg_start, end: s.tick + 1 },
                };
                let jobs2 = jobs1.update(
                    ci,
                    JobView {
                        completion: s.tick + 1,
                        turnaround: s.tick + 1 - jobs1[ci].arrival,
                        ..jobs1[ci]
                    },
                );
                SimState {
                    jobs: jobs2,
                    timeline: s.timeline.push(seg),
                    finished: s.finished + 1,
                    current: None,
                    ..s
                }
            } else {
                SimState { jobs: jobs1, ..s }
            }
        },
        None => s,
    }
}

/// One full tick of the simulation: admission, dispatch, the policy's
/// preemption check, service, and the advance of the clock.
pub open spec fn step(alg: Algorithm, s: SimState) -> SimState {
    let s1 = admit_all(s);
    let just_dispatched = s1.current is None && s1.queue.len() > 0;
    let s2 = dispatch(alg, s1);
    let s3 = match alg {
        Algorithm::ShortestRemainingTime => srt_preempt(s2),
        Algorithm::RoundRobin { time_quantum } => rr_preempt(
            s2,
            time_quantum as int,
            just_dispatched,
        ),
        _ => s2,
    };
    let s4 = service(alg, s3);
    SimState { tick: s4.tick + 1, ..s4 }
}

/// Runs ticks until every job is finished, or fails with
/// [`SchedulerError::TickBoundExceeded`] once the clock passes `bound`.
pub open spec fn run(alg: Algorithm, s: SimState, bound: int) -> Result<SimState, SchedulerError>
    decreases bound + 1 - s.tick,
{
    if s.finished >= s.order.len() {
        Ok(s)
    } else {
        let s2 = step(alg, s);
        if s2.tick > bound || s2.tick <= s.tick {
            // the second test never fires (a step advances the clock by
            // one); it makes termination of this definition self-evident
            Err(SchedulerError::TickBoundExceeded)
        } else {
            run(alg, s2, bound)
        }
    }
}

/// The sum of the required CPU times of all jobs.
pub open spec fn total_needed(jobs: Seq<JobView>) -> int
    decreases jobs.len(),
{
    if jobs.len() == 0 {
        0
    } else {
        total_needed(jobs.drop_last()) + jobs.last().needed
    }
}

/// The sum of the remaining CPU times of all jobs.
pub open spec fn total_remaining(jobs: Seq<JobView>) -> int
    decreases jobs.len(),
{
    if jobs.len() == 0 {
        0
    } else {
        total_remaining(jobs.drop_last()) + jobs.last().remaining
    }
}

/// The largest arrival time of any job, or zero for an empty job set.
pub open spec fn max_arrival(jobs: Seq<JobView>) -> int
    decreases jobs.len(),
{
    if jobs.len() == 0 {
        0
    } else if jobs.last().arrival > max_arrival(jobs.drop_last()) {
        jobs.last().arrival
    } else {
        max_arrival(jobs.drop_last())
    }
}

/// The expected upper estimate of the run's length: the larger of the
/// total required CPU time and the largest arrival time.
pub open spec fn expected_cpu_max(jobs: Seq<JobView>) -> int {
    if total_needed(jobs) > max_arrival(jobs) {
        total_needed(jobs)
    } else {
        max_arrival(jobs)
    }
}

/// The tick bound of a run: twice the expected maximum. A correct run
/// never reaches it.
pub open spec fn run_bound(jobs: Seq<JobView>) -> int {
    2 * expected_cpu_max(jobs)
}

/// A fresh copy of a job at the start of a run: remaining time reset to
/// the required time, metrics cleared.
pub open spec fn init_job(j: JobView) -> JobView {
    JobView { remaining: j.needed, completion: 0, turnaround: 0, ..j }
}

/// The fresh arena for a run.
pub open spec fn init_jobs(jobs: Seq<JobView>) -> Seq<JobView> {
    jobs.map_values(|j: JobView| init_job(j))
}

/// The identity index sequence `0, 1, .., n - 1`.
pub open spec fn identity_order(n: nat) -> Seq<usize> {
    Seq::new(n, |i: int| i as usize)
}

/// The state a tick-driven run starts from: a fresh arena, the admission
/// order sorted stably by arrival time, an empty queue and an idle CPU.
pub open spec fn init_state(jobs: Seq<JobView>) -> SimState {
    let ijobs = init_jobs(jobs);
    SimState {
        jobs: ijobs,
        order: sort_indices(identity_order(jobs.len()), ijobs, SortKey::Arrival),
        arrived: 0,
        queue: Seq::empty(),
        current: None,
        seg_start: 0,
        finished: 0,
        tick: 0,
        timeline: Seq::empty(),
    }
}

/// A returned job: the arena entry with its remaining time re-initialized,
/// as the engine hands the job set back to the caller.
pub open spec fn finalize_jobs(jobs: Seq<JobView>) -> Seq<JobView> {
    jobs.map_values(|j: JobView| JobView { remaining: j.needed, ..j })
}

/// The first-come-first-serve timeline: one segment per job in arrival
/// order, placed literally at `[arrival, arrival + needed)`. The policy
/// deliberately keeps this simplification: overlapping nominal windows
/// are not queued apart.
pub open spec fn fcfs_timeline(jobs: Seq<JobView>, order: Seq<usize>) -> Seq<SegI> {
    Seq::new(
        order.len(),
        |k: int|
            SegI {
                job: order[k],
                start: jobs[order[k] as int].arrival,
                end: jobs[order[k] as int].arrival + jobs[order[k] as int].needed,
            },
    )
}

/// The first-come-first-serve metrics: each job completes at the end of
/// its single segment.
pub open spec fn fcfs_jobs(jobs: Seq<JobView>) -> Seq<JobView> {
    jobs.map_values(
        |j: JobView|
            JobView {
                remaining: j.needed,
                completion: j.arrival + j.needed,
                turnaround: j.needed,
                ..init_job(j)
            },
    )
}

/// What a deterministic simulation run returns: the job set in its
/// original order with completion metrics filled in, and the recorded
/// timeline over arena indices. The random-order demonstration mode has
/// no deterministic meaning, so this function is never consulted for it;
/// its contract is stated directly over every possible outcome instead.
pub open spec fn spec_engine(alg: Algorithm, jobs: Seq<JobView>) -> Result<
    (Seq<JobView>, Seq<SegI>),
    SchedulerError,
> {
    match alg {
        Algorithm::FirstComeFirstServe => Ok(
            (fcfs_jobs(jobs), fcfs_timeline(init_jobs(jobs), init_state(jobs).order)),
        ),
        Algorithm::ShortestJobNext | Algorithm::ShortestRemainingTime | Algorithm::RoundRobin {
            ..
        } => match run(alg, init_state(jobs), run_bound(jobs)) {
            Ok(fs) => Ok((finalize_jobs(fs.jobs), fs.timeline)),
            Err(e) => Err(e),
        },
        Algorithm::RandomOrder => vstd::pervasive::arbitrary(),
    }
}

/// The duration, summed over the recorded timeline, during which arena
/// index `i` occupied the CPU.
pub open spec fn closed_dur(t: Seq<SegI>, i: usize) -> int
    decreases t.len(),
{
    if t.len() == 0 {
        0
    } else {
        closed_dur(t.drop_last(), i) + if t.last().job == i {
            t.last().end - t.last().start
        } else {
            0
        }
    }
}

} // verus!
