//! The public face of the scheduling engine: algorithm selection by name,
//! the `simulate` entry point over the closed set of policies, and the
//! string-keyed `process_scheduler` interface built on it.

use vstd::prelude::*;
use vstd::string::StringExecFns;

use crate::engine::{segs_view, tick_exec, SimContext};
use crate::job::{jobs_view, Job, JobView};
use crate::props::{
    inv, lemma_init_inv, lemma_max_arrival_congruence, lemma_max_arrival_take_step,
    lemma_total_needed_congruence, lemma_total_needed_take_le, lemma_total_needed_take_step,
    tick_driven,
};
use crate::sim::{
    expected_cpu_max, identity_order, init_jobs, init_state, run, run_bound, Algorithm,
    SchedulerError, SegI, SimState,
};
use crate::sort::{sort_indices, sorted_indices, SortKey};

verus! {

/// The algorithm selected by a display name, with the time quantum
/// attached to the round-robin variant. An unrecognized name selects
/// nothing.
pub open spec fn spec_algorithm_of(name: Seq<char>, time_quantum: u32) -> Option<Algorithm> {
    if name == "Random"@ {
        Some(Algorithm::RandomOrder)
    } else if name == "First Come First Serve (FCFS)"@ {
        Some(Algorithm::FirstComeFirstServe)
    } else if name == "Shortest Job Next (SJN)"@ {
        Some(Algorithm::ShortestJobNext)
    } else if name == "Shortest Remaining Time (SRT)"@ {
        Some(Algorithm::ShortestRemainingTime)
    } else if name == "Round Robin"@ {
        Some(Algorithm::RoundRobin { time_quantum })
    } else {
        None
    }
}

/// Whether `name` equals the literal `lit`.
fn is_named(name: &String, lit: &str) -> (r: bool)
    ensures
        r == (name@ == lit@),
{
    let other = String::from_str(lit);
    name.eq(&other)
}

/// Selects the algorithm a display name stands for, carrying the time
/// quantum into the round-robin variant; an unrecognized name selects
/// nothing.
pub fn algorithm_of(name: &String, time_quantum: u32) -> (r: Option<Algorithm>)
    ensures
        r == spec_algorithm_of(name@, time_quantum),
{
    if is_named(name, "Random") {
        Some(Algorithm::RandomOrder)
    } else if is_named(name, "First Come First Serve (FCFS)") {
        Some(Algorithm::FirstComeFirstServe)
    } else if is_named(name, "Shortest Job Next (SJN)") {
        Some(Algorithm::ShortestJobNext)
    } else if is_named(name, "Shortest Remaining Time (SRT)") {
        Some(Algorithm::ShortestRemainingTime)
    } else if is_named(name, "Round Robin") {
        Some(Algorithm::RoundRobin { time_quantum })
    } else {
        None
    }
}

/// A fresh arena for a run: every job's remaining time reset to its
/// required time and its metrics cleared.
fn init_arena(jobs: &Vec<Job>) -> (arena: Vec<Job>)
    ensures
        jobs_view(arena@) == init_jobs(jobs_view(jobs@)),
        arena@.len() == jobs@.len(),
{
    let mut arena: Vec<Job> = Vec::new();
    let mut i: usize = 0;
    while i < jobs.len()
        invariant
            i <= jobs@.len(),
            arena@.len() == i,
            forall|k: int|
                0 <= k < i ==> #[trigger] arena@[k]@ == crate::sim::init_job(jobs@[k]@),
        decreases jobs@.len() - i,
    {
        let job = Job {
            job_name: jobs[i].job_name.clone(),
            arrival_time: jobs[i].arrival_time,
            needed_cpu_cycle: jobs[i].needed_cpu_cycle,
            remaining_cpu_cycle: jobs[i].needed_cpu_cycle,
            completion_time: 0,
            turnaround_time: 0,
        };
        arena.push(job);
        i = i + 1;
    }
    proof {
        assert(jobs_view(arena@) =~= init_jobs(jobs_view(jobs@)));
    }
    arena
}

/// The admission order of a run: the arena indices, stably sorted by
/// arrival time.
fn build_order(arena: &Vec<Job>) -> (order: Vec<usize>)
    ensures
        order@ == sort_indices(
            identity_order(arena@.len() as nat),
            jobs_view(arena@),
            SortKey::Arrival,
        ),
{
    let n = arena.len();
    let mut ident: Vec<usize> = Vec::new();
    let mut i: usize = 0;
    while i < n
        invariant
            i <= n,
            ident@ == identity_order(i as nat),
        decreases n - i,
    {
        ident.push(i);
        proof {
            assert(ident@ =~= identity_order((i + 1) as nat));
        }
        i = i + 1;
    }
    proof {
        assert(forall|k: int| 0 <= k < ident@.len() ==> #[trigger] ident@[k] < arena@.len());
    }
    sorted_indices(&ident, arena, SortKey::Arrival)
}

/// The tick-bound of a run: twice the larger of the total required CPU
/// time and the largest arrival time.
fn compute_bound(arena: &Vec<Job>) -> (b: u32)
    requires
        2 * expected_cpu_max(jobs_view(arena@)) < u32::MAX,
    ensures
        b as int == run_bound(jobs_view(arena@)),
{
    let ghost jv = jobs_view(arena@);
    let mut cpu_time_max: u32 = 0;
    let mut arrival_max: u32 = 0;
    let mut i: usize = 0;
    proof {
        assert(jv.take(0) =~= Seq::<JobView>::empty());
        assert(forall|k: int| 0 <= k < jv.len() ==> (#[trigger] jv[k]).needed >= 0);
        lemma_total_needed_take_le(jv, 0);
    }
    while i < arena.len()
        invariant
            i <= arena@.len(),
            jv == jobs_view(arena@),
            2 * expected_cpu_max(jv) < u32::MAX,
            cpu_time_max as int == crate::sim::total_needed(jv.take(i as int)),
            arrival_max as int == crate::sim::max_arrival(jv.take(i as int)),
        decreases arena@.len() - i,
    {
        proof {
            lemma_total_needed_take_step(jv, i as int);
            lemma_max_arrival_take_step(jv, i as int);
            assert(forall|k: int| 0 <= k < jv.len() ==> (#[trigger] jv[k]).needed >= 0);
            lemma_total_needed_take_le(jv, i + 1);
        }
        cpu_time_max = cpu_time_max + arena[i].needed_cpu_cycle;
        if arena[i].arrival_time > arrival_max {
            arrival_max = arena[i].arrival_time;
        }
        i = i + 1;
    }
    proof {
        assert(jv.take(arena@.len() as int) =~= jv);
    }
    let expected = if cpu_time_max > arrival_max {
        cpu_time_max
    } else {
        arrival_max
    };
    2 * expected
}

/// What `simulate` and `process_scheduler` return: the job set with its
/// metrics, and the named timeline.
pub type SimOutput = (Vec<Job>, Vec<(String, u32, u32)>);

/// The view of one named timeline entry.
pub open spec fn named_seg_view(e: (String, u32, u32)) -> (Seq<char>, int, int) {
    (e.0@, e.1 as int, e.2 as int)
}

/// The views of a named timeline.
pub open spec fn named_view(t: Seq<(String, u32, u32)>) -> Seq<(Seq<char>, int, int)> {
    t.map_values(|e: (String, u32, u32)| named_seg_view(e))
}

/// An index timeline with each arena index replaced by its job's name.
pub open spec fn named_of(jobs: Seq<JobView>, t: Seq<SegI>) -> Seq<(Seq<char>, int, int)> {
    t.map_values(|g: SegI| (jobs[g.job as int].name, g.start, g.end))
}

/// Whether the job set is small enough for the engine's 32-bit tick
/// arithmetic under the selected algorithm.
pub open spec fn fits_u32(alg: Algorithm, jv: Seq<JobView>) -> bool {
    match alg {
        Algorithm::RandomOrder => 4 * jv.len() < u32::MAX,
        _ => 2 * expected_cpu_max(jv) < u32::MAX,
    }
}

/// Whether the job set is small enough for the engine's 32-bit tick
/// arithmetic under the selected algorithm, as executable code: the
/// check a caller of [`simulate`] or [`process_scheduler`] is asked to
/// have made.
pub fn fits_limits(algorithm: Algorithm, jobs: &Vec<Job>) -> (r: bool)
    ensures
        r == fits_u32(algorithm, jobs_view(jobs@)),
{
    let ghost jv = jobs_view(jobs@);
    if let Algorithm::RandomOrder = algorithm {
        let n = jobs.len() as u64;
        if n > u32::MAX as u64 {
            return false;
        }
        return 4 * n < u32::MAX as u64;
    }
    let mut cpu_total: u64 = 0;
    let mut arrival_max: u64 = 0;
    let mut i: usize = 0;
    proof {
        assert(jv.take(0) =~= Seq::<JobView>::empty());
    }
    while i < jobs.len()
        invariant
            i <= jobs@.len(),
            jv == jobs_view(jobs@),
            !(algorithm is RandomOrder),
            cpu_total as int == crate::sim::total_needed(jv.take(i as int)),
            arrival_max as int == crate::sim::max_arrival(jv.take(i as int)),
            cpu_total < 2 * (u32::MAX as u64),
            arrival_max <= u32::MAX,
        decreases jobs@.len() - i,
    {
        proof {
            lemma_total_needed_take_step(jv, i as int);
            lemma_max_arrival_take_step(jv, i as int);
        }
        cpu_total = cpu_total + jobs[i].needed_cpu_cycle as u64;
        if jobs[i].arrival_time as u64 > arrival_max {
            arrival_max = jobs[i].arrival_time as u64;
        }
        i = i + 1;
        if cpu_total >= u32::MAX as u64 {
            proof {
                assert forall|k: int| 0 <= k < jv.len() implies (#[trigger] jv[k]).needed >= 0 by {
                    assert(jv[k] == jobs@[k]@);
                }
                lemma_total_needed_take_le(jv, i as int);
                assert(expected_cpu_max(jv) >= crate::sim::total_needed(jv));
            }
            return false;
        }
    }
    proof {
        assert(jv.take(jobs@.len() as int) =~= jv);
    }
    let expected = if cpu_total > arrival_max {
        cpu_total
    } else {
        arrival_max
    };
    2 * expected < u32::MAX as u64
}

/// What a deterministic run returns: exactly the jobs and the
/// name-resolved timeline of the mathematical engine, or exactly its
/// error.
pub open spec fn deterministic_post(
    alg: Algorithm,
    jv: Seq<JobView>,
    r: Result<SimOutput, SchedulerError>,
) -> bool {
    match r {
        Ok(out) => crate::sim::spec_engine(alg, jv) matches Ok(pair) && jobs_view(out.0@)
            == pair.0 && named_view(out.1@) == named_of(init_jobs(jv), pair.1),
        Err(e) => crate::sim::spec_engine(alg, jv) == Err::<
            (Seq<JobView>, Seq<SegI>),
            SchedulerError,
        >(e),
    }
}

/// What the random-order demonstration mode returns, for every draw of
/// the random source: names kept, arrival and required times re-randomized
/// into their documented ranges, and a timeline of chained segments of
/// zero to four ticks each, one per job in arrival order.
pub open spec fn random_post(jv: Seq<JobView>, r: Result<SimOutput, SchedulerError>) -> bool {
    match r {
        Ok(out) => {
            let js = jobs_view(out.0@);
            let tl = named_view(out.1@);
            let ord = sort_indices(identity_order(jv.len() as nat), init_jobs(jv), SortKey::Arrival);
            &&& js.len() == jv.len()
            &&& (forall|i: int|
                0 <= i < jv.len() ==> {
                    &&& (#[trigger] js[i]).name == jv[i].name
                    &&& 0 <= js[i].arrival < 10
                    &&& 1 <= js[i].needed < 10
                    &&& js[i].remaining == js[i].needed
                    &&& js[i].completion == 0
                    &&& js[i].turnaround == 0
                })
            &&& tl.len() == jv.len()
            &&& (forall|i: int|
                0 <= i < tl.len() ==> (#[trigger] tl[i]).0 == jv[ord[i] as int].name)
            &&& (forall|i: int|
                0 <= i < tl.len() ==> (#[trigger] tl[i]).1 == if i == 0 {
                    0int
                } else {
                    tl[i - 1].2
                })
            &&& (forall|i: int|
                0 <= i < tl.len() ==> (#[trigger] tl[i]).1 <= tl[i].2 <= tl[i].1 + 4)
        },
        Err(_) => false,
    }
}

/// Runs the tick loop to completion, or reports that the tick bound was
/// exceeded. The outcome is exactly that of the mathematical [`run`].
fn run_sim(
    ctx: &mut SimContext,
    alg: Algorithm,
    bound: u32,
    Ghost(jobs0): Ghost<Seq<JobView>>,
) -> (ok: bool)
    requires
        tick_driven(alg),
        inv(alg, old(ctx)@, jobs0),
        bound < u32::MAX,
        old(ctx)@.tick <= bound,
    ensures
        match run(alg, old(ctx)@, bound as int) {
            Ok(f) => ok && final(ctx)@ == f && inv(alg, f, jobs0),
            Err(_) => !ok,
        },
{
    while ctx.finished < ctx.order.len()
        invariant
            tick_driven(alg),
            inv(alg, ctx@, jobs0),
            bound < u32::MAX,
            ctx@.tick <= bound,
            run(alg, old(ctx)@, bound as int) == run(alg, ctx@, bound as int),
        decreases bound as int + 1 - ctx@.tick,
    {
        let ghost pre = ctx@;
        tick_exec(ctx, alg, Ghost(jobs0));
        if ctx.tick > bound {
            proof {
                assert(run(alg, pre, bound as int) == Err::<SimState, SchedulerError>(
                    SchedulerError::TickBoundExceeded,
                ));
            }
            return false;
        }
        proof {
            assert(run(alg, pre, bound as int) == run(alg, ctx@, bound as int));
        }
    }
    proof {
        assert(run(alg, ctx@, bound as int) == Ok::<SimState, SchedulerError>(ctx@));
    }
    true
}

/// The job set as the engine returns it: each job's remaining time
/// re-initialized to its required time, metrics kept.
fn finalize_arena(arena: &Vec<Job>) -> (out: Vec<Job>)
    ensures
        jobs_view(out@) == crate::sim::finalize_jobs(jobs_view(arena@)),
{
    let mut out: Vec<Job> = Vec::new();
    let mut i: usize = 0;
    while i < arena.len()
        invariant
            i <= arena@.len(),
            out@.len() == i,
            forall|k: int|
                0 <= k < i ==> #[trigger] out@[k]@ == (JobView {
                    remaining: arena@[k]@.needed,
                    ..arena@[k]@
                }),
        decreases arena@.len() - i,
    {
        let job = Job {
            job_name: arena[i].job_name.clone(),
            arrival_time: arena[i].arrival_time,
            needed_cpu_cycle: arena[i].needed_cpu_cycle,
            remaining_cpu_cycle: arena[i].needed_cpu_cycle,
            completion_time: arena[i].completion_time,
            turnaround_time: arena[i].turnaround_time,
        };
        out.push(job);
        i = i + 1;
    }
    proof {
        assert(jobs_view(out@) =~= crate::sim::finalize_jobs(jobs_view(arena@)));
    }
    out
}

/// The timeline with each arena index replaced by its job's name.
fn name_timeline(arena: &Vec<Job>, tl: &Vec<(usize, u32, u32)>) -> (out: Vec<(String, u32, u32)>)
    requires
        forall|a: int| 0 <= a < tl@.len() ==> (#[trigger] tl@[a]).0 < arena@.len(),
    ensures
        named_view(out@) == named_of(jobs_view(arena@), segs_view(tl@)),
{
    let mut out: Vec<(String, u32, u32)> = Vec::new();
    let mut i: usize = 0;
    while i < tl.len()
        invariant
            i <= tl@.len(),
            out@.len() == i,
            forall|a: int| 0 <= a < tl@.len() ==> (#[trigger] tl@[a]).0 < arena@.len(),
            forall|k: int|
                0 <= k < i ==> #[trigger] named_seg_view(out@[k]) == (
                    jobs_view(arena@)[tl@[k].0 as int].name,
                    tl@[k].1 as int,
                    tl@[k].2 as int,
                ),
        decreases tl@.len() - i,
    {
        let ghost pre_out = out@;
        let entry = (arena[tl[i].0].job_name.clone(), tl[i].1, tl[i].2);
        out.push(entry);
        proof {
            assert(named_view(out@) =~= named_view(pre_out).push(named_seg_view(entry)));
        }
        i = i + 1;
    }
    proof {
        assert(named_view(out@) =~= named_of(jobs_view(arena@), segs_view(tl@)));
    }
    out
}

/// The first-come-first-serve metrics: each job completes at the end of
/// its nominal window `[arrival, arrival + needed)`.
fn fcfs_metrics(arena: &Vec<Job>) -> (out: Vec<Job>)
    requires
        2 * expected_cpu_max(jobs_view(arena@)) < u32::MAX,
    ensures
        jobs_view(out@) == jobs_view(arena@).map_values(
            |j: JobView|
                JobView {
                    remaining: j.needed,
                    completion: j.arrival + j.needed,
                    turnaround: j.needed,
                    ..j
                },
        ),
{
    let ghost jv = jobs_view(arena@);
    let mut out: Vec<Job> = Vec::new();
    let mut i: usize = 0;
    while i < arena.len()
        invariant
            i <= arena@.len(),
            jv == jobs_view(arena@),
            2 * expected_cpu_max(jv) < u32::MAX,
            out@.len() == i,
            forall|k: int|
                0 <= k < i ==> #[trigger] out@[k]@ == (JobView {
                    remaining: jv[k].needed,
                    completion: jv[k].arrival + jv[k].needed,
                    turnaround: jv[k].needed,
                    ..jv[k]
                }),
        decreases arena@.len() - i,
    {
        proof {
            crate::props::lemma_max_arrival_ge(jv, i as int);
            assert(forall|k: int| 0 <= k < jv.len() ==> (#[trigger] jv[k]).needed >= 0);
            crate::props::lemma_needed_le_total(jv, i as int);
        }
        let job = Job {
            job_name: arena[i].job_name.clone(),
            arrival_time: arena[i].arrival_time,
            needed_cpu_cycle: arena[i].needed_cpu_cycle,
            remaining_cpu_cycle: arena[i].needed_cpu_cycle,
            completion_time: arena[i].arrival_time + arena[i].needed_cpu_cycle,
            turnaround_time: arena[i].needed_cpu_cycle,
        };
        out.push(job);
        i = i + 1;
    }
    proof {
        assert(jobs_view(out@) =~= jv.map_values(
            |j: JobView|
                JobView {
                    remaining: j.needed,
                    completion: j.arrival + j.needed,
                    turnaround: j.needed,
                    ..j
                },
        ));
    }
    out
}

/// The first-come-first-serve timeline: the literal nominal window of
/// each job, in arrival order.
fn fcfs_timeline_exec(arena: &Vec<Job>, order: &Vec<usize>) -> (tl: Vec<(usize, u32, u32)>)
    requires
        2 * expected_cpu_max(jobs_view(arena@)) < u32::MAX,
        forall|k: int| 0 <= k < order@.len() ==> #[trigger] order@[k] < arena@.len(),
    ensures
        segs_view(tl@) == crate::sim::fcfs_timeline(jobs_view(arena@), order@),
{
    let ghost jv = jobs_view(arena@);
    let mut tl: Vec<(usize, u32, u32)> = Vec::new();
    let mut i: usize = 0;
    while i < order.len()
        invariant
            i <= order@.len(),
            jv == jobs_view(arena@),
            2 * expected_cpu_max(jv) < u32::MAX,
            forall|k: int| 0 <= k < order@.len() ==> #[trigger] order@[k] < arena@.len(),
            tl@.len() == i,
            forall|k: int|
                0 <= k < i ==> #[trigger] segs_view(tl@)[k] == crate::sim::fcfs_timeline(
                    jv,
                    order@,
                )[k],
        decreases order@.len() - i,
    {
        let x = order[i];
        proof {
            crate::props::lemma_max_arrival_ge(jv, x as int);
            assert(forall|k: int| 0 <= k < jv.len() ==> (#[trigger] jv[k]).needed >= 0);
            crate::props::lemma_needed_le_total(jv, x as int);
        }
        let ghost pre_tl = tl@;
        let entry = (x, arena[x].arrival_time, arena[x].arrival_time + arena[x].needed_cpu_cycle);
        tl.push(entry);
        proof {
            assert(segs_view(tl@) =~= segs_view(pre_tl).push(crate::engine::seg_view(entry)));
            assert(segs_view(tl@)[i as int] == crate::sim::fcfs_timeline(jv, order@)[i as int]);
        }
        i = i + 1;
    }
    proof {
        assert(segs_view(tl@) =~= crate::sim::fcfs_timeline(jv, order@));
    }
    tl
}

/// The random-order demonstration: one segment of zero to four random
/// ticks per job, chained end to start in arrival order, and each job's
/// arrival and required times re-randomized into `[0, 10)` and `[1, 10)`.
fn random_order_exec(jobs: &Vec<Job>, arena: &Vec<Job>, order: &Vec<usize>) -> (out: SimOutput)
    requires
        4 * jobs@.len() < u32::MAX,
        arena@.len() == jobs@.len(),
        order@.len() == jobs@.len(),
        jobs_view(arena@) == init_jobs(jobs_view(jobs@)),
        forall|k: int| 0 <= k < order@.len() ==> #[trigger] order@[k] < arena@.len(),
        order@ == sort_indices(
            identity_order(jobs_view(jobs@).len() as nat),
            init_jobs(jobs_view(jobs@)),
            SortKey::Arrival,
        ),
    ensures
        random_post(jobs_view(jobs@), Ok::<SimOutput, SchedulerError>(out)),
{
    let ghost jv = jobs_view(jobs@);
    let mut tl: Vec<(String, u32, u32)> = Vec::new();
    let mut prev_end: u32 = 0;
    let mut i: usize = 0;
    while i < order.len()
        invariant
            i <= order@.len(),
            order@.len() == jobs@.len(),
            arena@.len() == jobs@.len(),
            jv == jobs_view(jobs@),
            jobs_view(arena@) == init_jobs(jv),
            forall|k: int| 0 <= k < order@.len() ==> #[trigger] order@[k] < arena@.len(),
            4 * jobs@.len() < u32::MAX,
            tl@.len() == i,
            prev_end <= 4 * i,
            i > 0 ==> prev_end as int == named_view(tl@)[i - 1].2,
            forall|k: int|
                0 <= k < i ==> (#[trigger] named_view(tl@)[k]).0 == jv[order@[k] as int].name,
            forall|k: int|
                0 <= k < i ==> (#[trigger] named_view(tl@)[k]).1 == if k == 0 {
                    0int
                } else {
                    named_view(tl@)[k - 1].2
                },
            forall|k: int|
                0 <= k < i ==> (#[trigger] named_view(tl@)[k]).1 <= named_view(tl@)[k].2
                    <= named_view(tl@)[k].1 + 4,
        decreases order@.len() - i,
    {
        let x = order[i];
        let dur = crate::rng::rand_in_range(0, 5);
        let start = prev_end;
        let end = start + dur;
        let ghost pre_tl = tl@;
        let entry = (arena[x].job_name.clone(), start, end);
        tl.push(entry);
        proof {
            assert(named_view(tl@) =~= named_view(pre_tl).push(named_seg_view(entry)));
            assert(entry.0@ == jobs_view(arena@)[x as int].name);
            assert(jobs_view(arena@)[x as int].name == jv[x as int].name);
            assert(named_view(tl@)[i as int].0 == jv[order@[i as int] as int].name);
        }
        prev_end = end;
        i = i + 1;
    }
    let mut out_jobs: Vec<Job> = Vec::new();
    let mut j: usize = 0;
    while j < jobs.len()
        invariant
            j <= jobs@.len(),
            jv == jobs_view(jobs@),
            out_jobs@.len() == j,
            forall|k: int| 0 <= k < j ==> (#[trigger] out_jobs@[k]@).name == jv[k].name,
            forall|k: int| 0 <= k < j ==> 0 <= (#[trigger] out_jobs@[k]@).arrival < 10,
            forall|k: int| 0 <= k < j ==> 1 <= (#[trigger] out_jobs@[k]@).needed < 10,
            forall|k: int|
                0 <= k < j ==> (#[trigger] out_jobs@[k]@).remaining == out_jobs@[k]@.needed
                    && out_jobs@[k]@.completion == 0 && out_jobs@[k]@.turnaround == 0,
        decreases jobs@.len() - j,
    {
        let needed = crate::rng::rand_in_range(1, 10);
        let job = Job {
            job_name: jobs[j].job_name.clone(),
            arrival_time: crate::rng::rand_in_range(0, 10),
            needed_cpu_cycle: needed,
            remaining_cpu_cycle: needed,
            completion_time: 0,
            turnaround_time: 0,
        };
        out_jobs.push(job);
        j = j + 1;
    }
    (out_jobs, tl)
}

/// Simulates the job set under the selected scheduling policy.
///
/// For the deterministic policies the result is exactly the outcome of
/// the mathematical engine [`crate::sim::spec_engine`]: the job set in its
/// original order with completion and turnaround times filled in, and the
/// execution timeline as named half-open tick intervals. Round robin with
/// a zero time quantum is refused, and a run that exceeds its tick bound
/// reports [`SchedulerError::TickBoundExceeded`].
pub fn simulate(algorithm: Algorithm, jobs: Vec<Job>) -> (r: Result<SimOutput, SchedulerError>)
    requires
        fits_u32(algorithm, jobs_view(jobs@)),
    ensures
        (algorithm matches Algorithm::RoundRobin { time_quantum } && time_quantum == 0) ==> r
            == Err::<SimOutput, SchedulerError>(SchedulerError::InvalidTimeQuantum),
        tick_driven(algorithm) || algorithm is FirstComeFirstServe ==> deterministic_post(
            algorithm,
            jobs_view(jobs@),
            r,
        ),
        algorithm is RandomOrder ==> random_post(jobs_view(jobs@), r),
        tick_driven(algorithm) && crate::props::all_positive(jobs_view(jobs@)) ==> r is Ok,
        algorithm is FirstComeFirstServe || algorithm is RandomOrder ==> r is Ok,
{
    let ghost jv = jobs_view(jobs@);
    if let Algorithm::RoundRobin { time_quantum } = algorithm {
        if time_quantum == 0 {
            return Err(SchedulerError::InvalidTimeQuantum);
        }
    }
    let arena = init_arena(&jobs);
    let order = build_order(&arena);
    proof {
        assert(jobs@.len() <= usize::MAX);
        crate::props::lemma_identity_props(jv.len() as nat);
        crate::sort::lemma_sort_indices_multiset(
            identity_order(jv.len() as nat),
            init_jobs(jv),
            SortKey::Arrival,
        );
        crate::sort::lemma_sort_indices_entries(
            identity_order(jv.len() as nat),
            init_jobs(jv),
            SortKey::Arrival,
        );
        assert forall|k: int| 0 <= k < order@.len() implies #[trigger] order@[k]
            < arena@.len() by {
            assert(order@.contains(order@[k]));
            assert(identity_order(jv.len() as nat).contains(order@[k]));
        }
        assert(forall|i: int|
            0 <= i < jv.len() ==> (#[trigger] init_jobs(jv)[i]).needed == jv[i].needed
                && init_jobs(jv)[i].arrival == jv[i].arrival);
        lemma_total_needed_congruence(jv, init_jobs(jv));
        lemma_max_arrival_congruence(jv, init_jobs(jv));
    }
    match algorithm {
        Algorithm::RandomOrder => {
            let (out_jobs, tl) = random_order_exec(&jobs, &arena, &order);
            Ok((out_jobs, tl))
        },
        Algorithm::FirstComeFirstServe => {
            let out_jobs = fcfs_metrics(&arena);
            let tl_idx = fcfs_timeline_exec(&arena, &order);
            proof {
                assert forall|a: int| 0 <= a < tl_idx@.len() implies (#[trigger] tl_idx@[a]).0
                    < arena@.len() by {
                    assert(segs_view(tl_idx@).len() == tl_idx@.len());
                    assert(tl_idx@.len() == order@.len());
                    assert(segs_view(tl_idx@)[a] == crate::sim::fcfs_timeline(
                        jobs_view(arena@),
                        order@,
                    )[a]);
                    assert(segs_view(tl_idx@)[a].job == tl_idx@[a].0);
                    assert(crate::sim::fcfs_timeline(jobs_view(arena@), order@)[a].job
                        == order@[a]);
                    assert(order@[a] < arena@.len());
                }
            }
            let named = name_timeline(&arena, &tl_idx);
            proof {
                assert(jobs_view(out_jobs@) =~= crate::sim::fcfs_jobs(jv));
                assert(init_state(jv).order == order@);
            }
            Ok((out_jobs, named))
        },
        _ => {
            let bound = compute_bound(&arena);
            let mut ctx = SimContext {
                jobs: arena,
                order,
                arrived: 0,
                queue: Vec::new(),
                current: None,
                seg_start: 0,
                finished: 0,
                tick: 0,
                timeline: Vec::new(),
            };
            proof {
                lemma_init_inv(algorithm, jv);
                assert(segs_view(ctx.timeline@) =~= Seq::<SegI>::empty());
                assert(ctx@ == init_state(jv));
                assert(bound as int == run_bound(jv));
            }
            let ok = run_sim(&mut ctx, algorithm, bound, Ghost(init_jobs(jv)));
            proof {
                crate::props::lemma_run_inv(algorithm, init_state(jv), init_jobs(jv), bound as int);
            }
            if ok {
                let ghost f = ctx@;
                let out_jobs = finalize_arena(&ctx.jobs);
                proof {
                    assert forall|a: int| 0 <= a < ctx.timeline@.len() implies (
                    #[trigger] ctx.timeline@[a]).0 < ctx.jobs@.len() by {
                        assert(segs_view(ctx.timeline@)[a].job == ctx.timeline@[a].0);
                    }
                }
                let named = name_timeline(&ctx.jobs, &ctx.timeline);
                proof {
                    assert(named_view(named@) =~= named_of(init_jobs(jv), f.timeline));
                }
                Ok((out_jobs, named))
            } else {
                proof {
                    if crate::props::all_positive(jv) {
                        assert(crate::laws::well_formed_jobs(jv)) by {
                            assert(jobs@.len() <= usize::MAX);
                            assert(forall|i: int|
                                0 <= i < jv.len() ==> (#[trigger] jv[i]) == jobs@[i]@);
                        }
                        crate::laws::lemma_run_completes(algorithm, jv);
                        assert(false);
                    }
                }
                Err(SchedulerError::TickBoundExceeded)
            }
        },
    }
}

/// Runs the scheduling simulation selected by a display name, as the
/// presentation layer calls it. An unrecognized name is a configuration
/// error and produces no timeline.
pub fn process_scheduler(algorithm: String, jobs: Vec<Job>, time_quantum: u32) -> (r: Result<
    SimOutput,
    SchedulerError,
>)
    requires
        match spec_algorithm_of(algorithm@, time_quantum) {
            Some(a) => fits_u32(a, jobs_view(jobs@)),
            None => true,
        },
    ensures
        match spec_algorithm_of(algorithm@, time_quantum) {
            Some(a) => {
                &&& ((a matches Algorithm::RoundRobin { time_quantum: q } && q == 0) ==> r
                    == Err::<SimOutput, SchedulerError>(SchedulerError::InvalidTimeQuantum))
                &&& ((tick_driven(a) || a is FirstComeFirstServe) ==> deterministic_post(
                    a,
                    jobs_view(jobs@),
                    r,
                ))
                &&& (a is RandomOrder ==> random_post(jobs_view(jobs@), r))
                &&& (tick_driven(a) && crate::props::all_positive(jobs_view(jobs@)) ==> r is Ok)
                &&& (a is FirstComeFirstServe || a is RandomOrder ==> r is Ok)
            },
            None => r == Err::<SimOutput, SchedulerError>(SchedulerError::UnknownAlgorithm),
        },
{
    match algorithm_of(&algorithm, time_quantum) {
        Some(a) => simulate(a, jobs),
        None => Err(SchedulerError::UnknownAlgorithm),
    }
}

/// The sum of the turnaround times of all jobs.
pub open spec fn spec_total_turnaround(jobs: Seq<JobView>) -> int
    decreases jobs.len(),
{
    if jobs.len() == 0 {
        0
    } else {
        spec_total_turnaround(jobs.drop_last()) + jobs.last().turnaround
    }
}

/// The total turnaround time of a finished job set; the average
/// turnaround time is this sum divided by the number of jobs, zero for an
/// empty set.
pub fn total_turnaround_time(jobs: &Vec<Job>) -> (total: u64)
    requires
        jobs@.len() <= u32::MAX,
    ensures
        total as int == spec_total_turnaround(jobs_view(jobs@)),
{
    let ghost jv = jobs_view(jobs@);
    let mut total: u64 = 0;
    let mut i: usize = 0;
    proof {
        assert(jv.take(0) =~= Seq::<JobView>::empty());
    }
    while i < jobs.len()
        invariant
            i <= jobs@.len(),
            jobs@.len() <= u32::MAX,
            jv == jobs_view(jobs@),
            total as int == spec_total_turnaround(jv.take(i as int)),
            total as int <= i * (u32::MAX as int),
        decreases jobs@.len() - i,
    {
        proof {
            assert(jv.take(i + 1).drop_last() =~= jv.take(i as int));
            assert(jv.take(i + 1).last() == jv[i as int]);
            assert((i + 1) * (u32::MAX as int) <= (u32::MAX as int) * (u32::MAX as int)) by (nonlinear_arith)
                requires
                    0 <= i,
                    i + 1 <= u32::MAX as int,
            ;
            assert((u32::MAX as int) * (u32::MAX as int) < u64::MAX as int);
        }
        total = total + (jobs[i].turnaround_time as u64);
        i = i + 1;
    }
    proof {
        assert(jv.take(jobs@.len() as int) =~= jv);
    }
    total
}

} // verus!
