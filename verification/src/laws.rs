//! The engine's guarantees, stated as theorems over the mathematical
//! engine [`spec_engine`] that the executable `simulate` and
//! `process_scheduler` are proved to compute.

use vstd::prelude::*;

use crate::job::JobView;
use crate::props::{
    all_positive, lemma_final_state, lemma_identity_props, lemma_init_inv, lemma_run_inv,
    lemma_run_ok, tick_driven,
};
use crate::scheduler::deterministic_post;
use crate::sim::{
    closed_dur, fcfs_timeline, identity_order, init_jobs, init_state, max_arrival, run, run_bound,
    spec_engine, total_needed, Algorithm, SchedulerError, SegI,
};
use crate::sort::{lemma_sort_indices_entries, lemma_sort_indices_multiset, SortKey};

verus! {

/// A job set whose views the engine can be run on: every arrival and
/// required time is a nonnegative number, as the views of real jobs
/// always are.
pub open spec fn well_formed_jobs(jv: Seq<JobView>) -> bool {
    &&& jv.len() <= usize::MAX
    &&& (forall|i: int|
        0 <= i < jv.len() ==> (#[trigger] jv[i]).needed >= 0 && jv[i].arrival >= 0)
}

/// In the first-come-first-serve timeline each job in the admission order
/// contributes exactly its one nominal window.
proof fn lemma_fcfs_closed_dur(jobs: Seq<JobView>, order: Seq<usize>, i: usize)
    requires
        forall|k: int| 0 <= k < order.len() ==> #[trigger] order[k] < jobs.len(),
        order.no_duplicates(),
        i < jobs.len(),
    ensures
        closed_dur(fcfs_timeline(jobs, order), i) == if order.contains(i) {
            jobs[i as int].needed
        } else {
            0int
        },
    decreases order.len(),
{
    let t = fcfs_timeline(jobs, order);
    if order.len() == 0 {
        assert(!order.contains(i));
    } else {
        assert(t.drop_last() =~= fcfs_timeline(jobs, order.drop_last()));
        assert forall|a: int, b: int|
            0 <= a < order.drop_last().len() && 0 <= b < order.drop_last().len() && a != b implies
            order.drop_last()[a] != order.drop_last()[b] by {
            assert(order.drop_last()[a] == order[a]);
            assert(order.drop_last()[b] == order[b]);
        }
        lemma_fcfs_closed_dur(jobs, order.drop_last(), i);
        assert(t.last() == fcfs_timeline(jobs, order)[order.len() - 1]);
        if order.last() == i {
            assert(!order.drop_last().contains(i)) by {
                if order.drop_last().contains(i) {
                    let a = choose|a: int|
                        0 <= a < order.drop_last().len() && order.drop_last()[a] == i;
                    assert(order[a] == order[order.len() - 1]);
                    assert(false);
                }
            }
            assert(order.contains(i));
        } else {
            assert(order.contains(i) <==> order.drop_last().contains(i)) by {
                if order.contains(i) {
                    let a = choose|a: int| 0 <= a < order.len() && order[a] == i;
                    assert(a != order.len() - 1);
                    assert(order.drop_last()[a] == i);
                }
                if order.drop_last().contains(i) {
                    let a = choose|a: int|
                        0 <= a < order.drop_last().len() && order.drop_last()[a] == i;
                    assert(order[a] == i);
                }
            }
        }
    }
}

/// Service conservation: under every scheduling policy, the recorded
/// segment durations of each job sum to exactly its required CPU time.
/// A zero-length burst is disallowed by construction in the workload;
/// under the preemptive policies such a job would be charged the one tick
/// in which it is dispatched and retired, so the statement asks every
/// burst to be positive.
pub proof fn lemma_service_conservation(
    alg: Algorithm,
    jv: Seq<JobView>,
    js: Seq<JobView>,
    tl: Seq<SegI>,
)
    requires
        tick_driven(alg) || alg is FirstComeFirstServe,
        well_formed_jobs(jv),
        tick_driven(alg) ==> all_positive(jv),
        spec_engine(alg, jv) == Ok::<(Seq<JobView>, Seq<SegI>), SchedulerError>((js, tl)),
    ensures
        forall|i: usize| i < jv.len() ==> #[trigger] closed_dur(tl, i) == jv[i as int].needed,
{
    let jobs0 = init_jobs(jv);
    assert(all_positive(jv) ==> all_positive(jobs0)) by {
        assert(forall|i: int|
            0 <= i < jobs0.len() ==> (#[trigger] jobs0[i]).needed == jv[i].needed);
    }
    lemma_identity_props(jv.len() as nat);
    lemma_sort_indices_multiset(identity_order(jv.len() as nat), jobs0, SortKey::Arrival);
    lemma_sort_indices_entries(identity_order(jv.len() as nat), jobs0, SortKey::Arrival);
    let order = init_state(jv).order;
    assert forall|k: int| 0 <= k < order.len() implies #[trigger] order[k] < jobs0.len() by {
        assert(order.contains(order[k]));
        assert(identity_order(jv.len() as nat).contains(order[k]));
    }
    if alg is FirstComeFirstServe {
        assert forall|i: usize| i < jv.len() implies #[trigger] closed_dur(tl, i) == jv[i
            as int].needed by {
            lemma_fcfs_closed_dur(jobs0, order, i);
            broadcast use vstd::seq_lib::group_to_multiset_ensures;

            assert(identity_order(jv.len() as nat)[i as int] == i);
            assert(identity_order(jv.len() as nat).contains(i));
            assert(order.to_multiset().count(i) > 0);
            assert(order.contains(i));
        }
    } else {
        lemma_init_inv(alg, jv);
        lemma_run_inv(alg, init_state(jv), jobs0, run_bound(jv));
        let f = run(alg, init_state(jv), run_bound(jv)) ->Ok_0;
        lemma_final_state(alg, f, jobs0);
    }
}

/// The timeline of a tick-driven policy is temporally ordered and
/// non-overlapping: each segment ends no later than the next begins, and
/// no segment ends before it starts.
pub proof fn lemma_timeline_ordered(alg: Algorithm, jv: Seq<JobView>, js: Seq<JobView>, tl: Seq<
    SegI,
>)
    requires
        tick_driven(alg),
        well_formed_jobs(jv),
        spec_engine(alg, jv) == Ok::<(Seq<JobView>, Seq<SegI>), SchedulerError>((js, tl)),
    ensures
        forall|a: int| 0 <= a < tl.len() ==> 0 <= (#[trigger] tl[a]).start <= tl[a].end,
        forall|a: int| 0 <= a < tl.len() - 1 ==> (#[trigger] tl[a]).end <= tl[a + 1].start,
{
    let jobs0 = init_jobs(jv);
    lemma_init_inv(alg, jv);
    lemma_run_inv(alg, init_state(jv), jobs0, run_bound(jv));
}

/// The timeline of a tick-driven policy tiles the tick axis while any job
/// is ready or running: a hole between consecutive segments concerns no
/// job, since every job has either completed by the hole's start or only
/// arrives at its end or later. Together with [`lemma_timeline_ordered`]
/// this pins the timeline's shape; zero-length bursts are excluded as in
/// [`lemma_service_conservation`].
pub proof fn lemma_timeline_gap_free(alg: Algorithm, jv: Seq<JobView>, js: Seq<JobView>, tl: Seq<
    SegI,
>)
    requires
        tick_driven(alg),
        well_formed_jobs(jv),
        all_positive(jv),
        spec_engine(alg, jv) == Ok::<(Seq<JobView>, Seq<SegI>), SchedulerError>((js, tl)),
    ensures
        forall|a: int, i: int|
            0 <= a < tl.len() - 1 && (#[trigger] tl[a]).end < tl[a + 1].start && 0 <= i < js.len()
                ==> (#[trigger] js[i]).completion <= tl[a].end || js[i].arrival >= tl[a + 1].start,
{
    let jobs0 = init_jobs(jv);
    assert(all_positive(jobs0)) by {
        assert(forall|i: int|
            0 <= i < jobs0.len() ==> (#[trigger] jobs0[i]).needed == jv[i].needed);
    }
    lemma_init_inv(alg, jv);
    crate::gaps::lemma_init_gaps(jv);
    lemma_run_inv(alg, init_state(jv), jobs0, run_bound(jv));
    crate::gaps::lemma_run_gaps(alg, init_state(jv), jobs0, run_bound(jv));
    let f = run(alg, init_state(jv), run_bound(jv)) ->Ok_0;
    lemma_final_state(alg, f, jobs0);
    assert forall|a: int, i: int|
        0 <= a < tl.len() - 1 && (#[trigger] tl[a]).end < tl[a + 1].start && 0 <= i < js.len()
            implies (#[trigger] js[i]).completion <= tl[a].end || js[i].arrival >= tl[a
        + 1].start by {
        assert(crate::gaps::gap_clear(f.jobs, tl[a].end, tl[a + 1].start));
        assert(js[i] == (JobView { remaining: f.jobs[i].needed, ..f.jobs[i] }));
        assert((f.jobs[i].remaining == 0 && f.jobs[i].completion <= tl[a].end) || f.jobs[i].arrival
            >= tl[a + 1].start);
    }
}

/// No job finishes sooner than its minimum possible service time: under
/// the tick-driven policies, every completion time is at least the job's
/// arrival time plus its required CPU time, and the turnaround time is
/// the time from arrival to completion.
pub proof fn lemma_completion_bounds(alg: Algorithm, jv: Seq<JobView>, js: Seq<JobView>, tl: Seq<
    SegI,
>)
    requires
        tick_driven(alg),
        well_formed_jobs(jv),
        spec_engine(alg, jv) == Ok::<(Seq<JobView>, Seq<SegI>), SchedulerError>((js, tl)),
    ensures
        js.len() == jv.len(),
        forall|i: int|
            0 <= i < js.len() ==> (#[trigger] js[i]).completion >= js[i].arrival + js[i].needed,
        forall|i: int|
            0 <= i < js.len() ==> (#[trigger] js[i]).completion == js[i].arrival + js[i].turnaround,
{
    let jobs0 = init_jobs(jv);
    lemma_init_inv(alg, jv);
    lemma_run_inv(alg, init_state(jv), jobs0, run_bound(jv));
    let f = run(alg, init_state(jv), run_bound(jv)) ->Ok_0;
    lemma_final_state(alg, f, jobs0);
    assert(forall|i: int|
        0 <= i < js.len() ==> js[i] == (JobView { remaining: f.jobs[i].needed, ..f.jobs[i] }));
}

/// A run over a job set without zero-length bursts always completes:
/// the tick-bound safety check never trips, so the engine returns a
/// result rather than the internal-invariant error.
pub proof fn lemma_run_completes(alg: Algorithm, jv: Seq<JobView>)
    requires
        tick_driven(alg),
        well_formed_jobs(jv),
        all_positive(jv),
    ensures
        spec_engine(alg, jv) is Ok,
{
    let jobs0 = init_jobs(jv);
    assert(all_positive(jobs0) && max_arrival(jobs0) + total_needed(jobs0) <= run_bound(jv)) by {
        assert(forall|i: int|
            0 <= i < jobs0.len() ==> (#[trigger] jobs0[i]).needed == jv[i].needed && jobs0[i].arrival
                == jv[i].arrival);
        crate::props::lemma_total_needed_congruence(jobs0, jv);
        crate::props::lemma_max_arrival_congruence(jobs0, jv);
    }
    lemma_init_inv(alg, jv);
    lemma_run_ok(alg, init_state(jv), jobs0, run_bound(jv));
}

/// The deterministic policies are repeatable: two runs of the engine over
/// an identical job set and algorithm return identical jobs and an
/// identical timeline (or the identical error).
pub proof fn lemma_simulate_repeatable(
    alg: Algorithm,
    jv: Seq<JobView>,
    r1: Result<crate::scheduler::SimOutput, SchedulerError>,
    r2: Result<crate::scheduler::SimOutput, SchedulerError>,
)
    requires
        tick_driven(alg) || alg is FirstComeFirstServe,
        deterministic_post(alg, jv, r1),
        deterministic_post(alg, jv, r2),
    ensures
        r1 is Ok <==> r2 is Ok,
        r1 is Ok && r2 is Ok ==> crate::job::jobs_view((r1->Ok_0).0@) == crate::job::jobs_view(
            (r2->Ok_0).0@,
        ) && crate::scheduler::named_view((r1->Ok_0).1@) == crate::scheduler::named_view(
            (r2->Ok_0).1@,
        ),
        r1 is Err && r2 is Err ==> r1->Err_0 == r2->Err_0,
{
}

} // verus!
