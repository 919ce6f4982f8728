//! The run invariant of the tick-driven engine and its preservation
//! proofs, from which the engine's guarantees follow: service
//! conservation, an ordered and non-overlapping timeline, completion no
//! earlier than arrival plus service, and successful termination of every
//! well-formed run.

use vstd::prelude::*;

use crate::job::JobView;
use crate::sim::{
    admit_all, can_admit, closed_dur, dispatch, dispatch_queue, identity_order, init_job,
    init_jobs, init_state, max_arrival, run, rr_preempt, service, srt_preempt, step, total_needed,
    total_remaining, Algorithm, SchedulerError, SegI, SimState,
};
use crate::sort::{
    lemma_sort_indices_entries, lemma_sort_indices_multiset, sort_indices, SortKey,
};

verus! {

/// Whether every job in the set requires at least one tick of service.
/// Zero-length bursts are disallowed by construction in the workload, but
/// the engine still runs them to completion; only the properties stated
/// over this predicate need to exclude them.
pub open spec fn all_positive(jobs: Seq<JobView>) -> bool {
    forall|i: int| 0 <= i < jobs.len() ==> (#[trigger] jobs[i]).needed >= 1
}

/// Whether arena index `i` has been admitted: it stands in the admitted
/// prefix of the admission order.
pub open spec fn in_admitted(s: SimState, i: usize) -> bool {
    exists|k: int| 0 <= k < s.arrived && #[trigger] s.order[k] == i
}

/// Whether arena index `i` is finished: admitted, no longer queued, and
/// not running.
pub open spec fn is_finished(s: SimState, i: usize) -> bool {
    in_admitted(s, i) && !s.queue.contains(i) && s.current != Some(i)
}

/// Structural well-formedness: the admission order is a permutation of
/// the arena indices, the queue and the running job hold distinct admitted
/// indices, and the finished count is what is left of the admitted ones.
pub open spec fn inv_structure(s: SimState) -> bool {
    &&& s.order.len() == s.jobs.len()
    &&& (forall|k: int| 0 <= k < s.order.len() ==> #[trigger] s.order[k] < s.jobs.len())
    &&& s.order.no_duplicates()
    &&& s.order.to_multiset() == identity_order(s.jobs.len() as nat).to_multiset()
    &&& 0 <= s.arrived <= s.order.len()
    &&& s.queue.no_duplicates()
    &&& (forall|y: usize|
        #[trigger] s.queue.contains(y) ==> y < s.jobs.len() && in_admitted(s, y))
    &&& (match s.current {
        Some(c) => c < s.jobs.len() && !s.queue.contains(c) && in_admitted(s, c),
        None => true,
    })
    &&& s.finished == s.arrived - s.queue.len() - (match s.current {
        Some(_) => 1int,
        None => 0int,
    })
    &&& 0 <= s.tick
    &&& 0 <= s.seg_start <= s.tick
}

/// Per-job facts: the input fields are frozen, the remaining time is
/// bounded, not-yet-admitted jobs are untouched, admitted jobs have
/// received no more service than the time since their arrival, queued and
/// running jobs are unfinished, and finished jobs carry their metrics.
pub open spec fn inv_jobs(s: SimState, jobs0: Seq<JobView>) -> bool {
    &&& s.jobs.len() == jobs0.len()
    &&& (forall|i: int|
        0 <= i < s.jobs.len() ==> {
            &&& (#[trigger] s.jobs[i]).name == jobs0[i].name
            &&& s.jobs[i].arrival == jobs0[i].arrival
            &&& s.jobs[i].needed == jobs0[i].needed
            &&& 0 <= s.jobs[i].remaining <= s.jobs[i].needed
        })
    &&& (forall|k: int|
        s.arrived <= k < s.order.len() ==> {
            let j = s.jobs[#[trigger] s.order[k] as int];
            j.remaining == j.needed && j.completion == 0 && j.turnaround == 0
        })
    &&& (forall|k: int|
        0 <= k < s.arrived ==> {
            let j = s.jobs[#[trigger] s.order[k] as int];
            j.needed - j.remaining <= s.tick - j.arrival
        })
    &&& (forall|k: int|
        0 <= k < s.arrived ==> is_finished(s, #[trigger] s.order[k]) ==> {
            let j = s.jobs[s.order[k] as int];
            &&& j.remaining == 0
            &&& j.completion >= j.arrival + j.needed
            &&& j.completion == j.arrival + j.turnaround
            &&& j.completion <= s.tick
        })
    &&& (forall|y: usize|
        #[trigger] s.queue.contains(y) ==> (s.jobs[y as int].needed > 0 ==> s.jobs[y
            as int].remaining >= 1))
}

/// The running job still has service left. This holds at every tick
/// boundary; in the middle of a tick a just-dispatched zero-length job can
/// break it until it finishes within the same tick.
pub open spec fn cur_live(s: SimState) -> bool {
    match s.current {
        Some(c) => s.jobs[c as int].remaining >= 1,
        None => true,
    }
}

/// The weakening of [`cur_live`] that holds in the middle of a tick.
pub open spec fn cur_live_weak(s: SimState) -> bool {
    match s.current {
        Some(c) => s.jobs[c as int].remaining >= 1 || s.jobs[c as int].needed == 0,
        None => true,
    }
}

/// Shortest job next never requeues a running job, so every queued job is
/// still untouched there, and the running job's whole service stands in
/// its one open segment.
pub open spec fn inv_sjn(s: SimState) -> bool {
    &&& (forall|y: usize|
        #[trigger] s.queue.contains(y) ==> s.jobs[y as int].remaining == s.jobs[y
            as int].needed)
    &&& (match s.current {
        Some(c) => s.jobs[c as int].needed - s.jobs[c as int].remaining == s.tick - s.seg_start,
        None => true,
    })
}

/// Timeline facts: segments lie in the past, are ordered and
/// non-overlapping, and (for job sets without zero-length bursts) the
/// recorded durations account exactly for the service each job has
/// received, less the still-open segment of the running job.
pub open spec fn inv_timeline(alg: Algorithm, s: SimState, jobs0: Seq<JobView>) -> bool {
    &&& (forall|a: int|
        0 <= a < s.timeline.len() ==> {
            &&& (#[trigger] s.timeline[a]).job < s.jobs.len()
            &&& 0 <= s.timeline[a].start
            &&& s.timeline[a].start <= s.timeline[a].end
            &&& s.timeline[a].end <= s.tick
        })
    &&& (forall|a: int|
        0 <= a < s.timeline.len() - 1 ==> (#[trigger] s.timeline[a]).end <= s.timeline[a
            + 1].start)
    &&& (s.timeline.len() > 0 ==> s.timeline.last().end <= (match s.current {
        Some(_) => s.seg_start,
        None => s.tick,
    }))
    &&& (all_positive(jobs0) ==> (forall|i: usize|
        i < s.jobs.len() ==> #[trigger] closed_dur(s.timeline, i) == (s.jobs[i as int].needed
            - s.jobs[i as int].remaining) - (if s.current == Some(i) {
            s.tick - s.seg_start
        } else {
            0int
        })))
}

/// The clock never outruns the service performed plus the waiting for the
/// last arrival; stated for job sets without zero-length bursts, it is
/// what keeps a run inside its tick bound.
pub open spec fn inv_clock(s: SimState, jobs0: Seq<JobView>) -> bool {
    all_positive(jobs0) ==> s.tick <= max_arrival(jobs0) + (total_needed(jobs0)
        - total_remaining(s.jobs))
}

/// The run invariant: everything the tick loop maintains, relative to the
/// fresh arena `jobs0` the run started from.
pub open spec fn inv(alg: Algorithm, s: SimState, jobs0: Seq<JobView>) -> bool {
    &&& inv_structure(s)
    &&& inv_jobs(s, jobs0)
    &&& cur_live(s)
    &&& (alg is ShortestJobNext ==> inv_sjn(s))
    &&& inv_timeline(alg, s, jobs0)
    &&& inv_clock(s, jobs0)
}

/// The run invariant as it stands in the middle of a tick, between
/// dispatch and service: a just-dispatched zero-length job may occupy the
/// CPU with no remaining service.
pub open spec fn inv_mid(alg: Algorithm, s: SimState, jobs0: Seq<JobView>) -> bool {
    &&& inv_structure(s)
    &&& inv_jobs(s, jobs0)
    &&& cur_live_weak(s)
    &&& (alg is ShortestJobNext ==> inv_sjn(s))
    &&& inv_timeline(alg, s, jobs0)
    &&& inv_clock(s, jobs0)
}

/// Appending a segment adds its duration to its job's total and nothing
/// to any other job's.
pub proof fn lemma_closed_dur_push(t: Seq<SegI>, seg: SegI, i: usize)
    ensures
        closed_dur(t.push(seg), i) == closed_dur(t, i) + if seg.job == i {
            seg.end - seg.start
        } else {
            0int
        },
{
    assert(t.push(seg).drop_last() =~= t);
    assert(t.push(seg).last() == seg);
}

/// The sum of remaining times changes exactly by the one entry changed,
/// when every other entry keeps its remaining time.
pub proof fn lemma_total_remaining_delta(a: Seq<JobView>, b: Seq<JobView>, i: int)
    requires
        a.len() == b.len(),
        0 <= i < a.len(),
        forall|j: int| 0 <= j < a.len() && j != i ==> a[j].remaining == (#[trigger] b[j]).remaining,
    ensures
        total_remaining(b) == total_remaining(a) + b[i].remaining - a[i].remaining,
    decreases a.len(),
{
    if i == a.len() - 1 {
        lemma_total_remaining_congruence(a.drop_last(), b.drop_last());
    } else {
        lemma_total_remaining_delta(a.drop_last(), b.drop_last(), i);
    }
}

/// Sequences with pointwise equal remaining times have equal sums.
pub proof fn lemma_total_remaining_congruence(a: Seq<JobView>, b: Seq<JobView>)
    requires
        a.len() == b.len(),
        forall|j: int| 0 <= j < a.len() ==> a[j].remaining == (#[trigger] b[j]).remaining,
    ensures
        total_remaining(b) == total_remaining(a),
    decreases a.len(),
{
    if a.len() > 0 {
        lemma_total_remaining_congruence(a.drop_last(), b.drop_last());
    }
}

/// Sequences with pointwise equal required times have equal sums.
pub proof fn lemma_total_needed_congruence(a: Seq<JobView>, b: Seq<JobView>)
    requires
        a.len() == b.len(),
        forall|j: int| 0 <= j < a.len() ==> a[j].needed == (#[trigger] b[j]).needed,
    ensures
        total_needed(b) == total_needed(a),
    decreases a.len(),
{
    if a.len() > 0 {
        lemma_total_needed_congruence(a.drop_last(), b.drop_last());
    }
}

/// Sequences with pointwise equal arrival times have equal maxima.
pub proof fn lemma_max_arrival_congruence(a: Seq<JobView>, b: Seq<JobView>)
    requires
        a.len() == b.len(),
        forall|j: int| 0 <= j < a.len() ==> a[j].arrival == (#[trigger] b[j]).arrival,
    ensures
        max_arrival(b) == max_arrival(a),
    decreases a.len(),
{
    if a.len() > 0 {
        lemma_max_arrival_congruence(a.drop_last(), b.drop_last());
    }
}

/// No arrival exceeds the maximum arrival.
pub proof fn lemma_max_arrival_ge(jobs: Seq<JobView>, i: int)
    requires
        0 <= i < jobs.len(),
    ensures
        jobs[i].arrival <= max_arrival(jobs),
    decreases jobs.len(),
{
    if i < jobs.len() - 1 {
        lemma_max_arrival_ge(jobs.drop_last(), i);
    }
}

/// The sum of remaining times is bounded by the sum of required times,
/// and it is at least any single entry (the rest being nonnegative).
pub proof fn lemma_total_remaining_bounds(jobs: Seq<JobView>)
    requires
        forall|i: int| 0 <= i < jobs.len() ==> 0 <= (#[trigger] jobs[i]).remaining <= jobs[i].needed,
    ensures
        0 <= total_remaining(jobs),
        total_remaining(jobs) <= total_needed(jobs),
        forall|i: int|
            0 <= i < jobs.len() ==> (#[trigger] jobs[i]).remaining <= total_remaining(jobs),
    decreases jobs.len(),
{
    if jobs.len() > 0 {
        lemma_total_remaining_bounds(jobs.drop_last());
        assert forall|i: int| 0 <= i < jobs.len() implies (#[trigger] jobs[i]).remaining
            <= total_remaining(jobs) by {
            if i < jobs.len() - 1 {
                assert(jobs.drop_last()[i] == jobs[i]);
            }
        }
    }
}

/// Appending an element: the members of the result are the old members
/// and the new element.
pub proof fn lemma_push_contains(q: Seq<usize>, x: usize)
    ensures
        forall|y: usize| #[trigger] q.push(x).contains(y) <==> (q.contains(y) || y == x),
{
    assert forall|y: usize| #[trigger] q.push(x).contains(y) <==> (q.contains(y) || y == x) by {
        if q.push(x).contains(y) {
            let i = choose|i: int| 0 <= i < q.push(x).len() && q.push(x)[i] == y;
            if i < q.len() {
                assert(q[i] == y);
            }
        }
        if q.contains(y) {
            let i = choose|i: int| 0 <= i < q.len() && q[i] == y;
            assert(q.push(x)[i] == y);
        }
        assert(q.push(x)[q.len() as int] == x);
    }
}

/// Appending a fresh element keeps a sequence free of duplicates.
pub proof fn lemma_push_no_dup(q: Seq<usize>, x: usize)
    requires
        q.no_duplicates(),
        !q.contains(x),
    ensures
        q.push(x).no_duplicates(),
{
    assert forall|i: int, j: int|
        0 <= i < q.push(x).len() && 0 <= j < q.push(x).len() && i != j implies q.push(x)[i]
        != q.push(x)[j] by {
        if i < q.len() && j == q.len() {
            assert(q[i] != x);
        } else if j < q.len() && i == q.len() {
            assert(q[j] != x);
        }
    }
}

/// Dropping the head of a duplicate-free sequence keeps it duplicate-free
/// and keeps exactly the members other than the head.
pub proof fn lemma_drop_first_props(q: Seq<usize>)
    requires
        q.len() > 0,
        q.no_duplicates(),
    ensures
        q.drop_first().no_duplicates(),
        forall|y: usize| #[trigger] q.drop_first().contains(y) <==> (q.contains(y) && y != q[0]),
        q.contains(q[0]),
{
    assert forall|i: int, j: int|
        0 <= i < q.drop_first().len() && 0 <= j < q.drop_first().len() && i != j implies q
            .drop_first()[i] != q.drop_first()[j] by {
        assert(q.drop_first()[i] == q[i + 1]);
        assert(q.drop_first()[j] == q[j + 1]);
    }
    assert forall|y: usize| #[trigger] q.drop_first().contains(y) <==> (q.contains(y) && y
        != q[0]) by {
        if q.drop_first().contains(y) {
            let i = choose|i: int| 0 <= i < q.drop_first().len() && q.drop_first()[i] == y;
            assert(q[i + 1] == y);
            assert(q[i + 1] != q[0]);
        }
        if q.contains(y) && y != q[0] {
            let i = choose|i: int| 0 <= i < q.len() && q[i] == y;
            assert(i != 0);
            assert(q.drop_first()[i - 1] == y);
        }
    }
}

/// Admission preserves the run invariant and changes nothing but the
/// queue and the admitted count; afterwards no further job can be
/// admitted at this tick.
pub proof fn lemma_admit_all(alg: Algorithm, s: SimState, jobs0: Seq<JobView>)
    requires
        inv(alg, s, jobs0),
    ensures
        inv(alg, admit_all(s), jobs0),
        !can_admit(admit_all(s)),
        admit_all(s).jobs == s.jobs,
        admit_all(s).order == s.order,
        admit_all(s).current == s.current,
        admit_all(s).seg_start == s.seg_start,
        admit_all(s).finished == s.finished,
        admit_all(s).tick == s.tick,
        admit_all(s).timeline == s.timeline,
        s.arrived <= admit_all(s).arrived,
        admit_all(s).queue.len() - s.queue.len() == admit_all(s).arrived - s.arrived,
    decreases s.order.len() - s.arrived,
{
    if can_admit(s) {
        let x = s.order[s.arrived];
        let s1 = SimState { queue: s.queue.push(x), arrived: s.arrived + 1, ..s };
        assert(!s.queue.contains(x)) by {
            if s.queue.contains(x) {
                assert(in_admitted(s, x));
                let j = choose|j: int| 0 <= j < s.arrived && s.order[j] == x;
                assert(s.order[j] == s.order[s.arrived]);
                assert(false);
            }
        }
        lemma_push_no_dup(s.queue, x);
        lemma_push_contains(s.queue, x);
        assert(s1.queue[s.queue.len() as int] == x);
        assert(s.current != Some(x)) by {
            match s.current {
                Some(c) => {
                    if c == x {
                        let j = choose|j: int| 0 <= j < s.arrived && s.order[j] == c;
                        assert(s.order[j] == s.order[s.arrived]);
                        assert(false);
                    }
                },
                None => {},
            }
        }
        assert forall|y: usize| #[trigger] s1.queue.contains(y) implies y < s1.jobs.len()
            && in_admitted(s1, y) by {
            if s.queue.contains(y) {
                assert(in_admitted(s, y));
                let j = choose|j: int| 0 <= j < s.arrived && s.order[j] == y;
                assert(0 <= j < s1.arrived && s1.order[j] == y);
            } else {
                assert(y == x);
                assert(s1.order[s.arrived] == x);
                assert(0 <= s.order[s.arrived] < s.jobs.len());
            }
        }
        match s.current {
            Some(c) => {
                let j = choose|j: int| 0 <= j < s.arrived && s.order[j] == c;
                assert(0 <= j < s1.arrived && s1.order[j] == c);
                assert(in_admitted(s1, c));
            },
            None => {},
        }
        assert forall|k: int|
            0 <= k < s1.arrived && is_finished(s1, #[trigger] s1.order[k]) implies {
            let j = s1.jobs[s1.order[k] as int];
            &&& j.remaining == 0
            &&& j.completion >= j.arrival + j.needed
            &&& j.completion == j.arrival + j.turnaround
            &&& j.completion <= s1.tick
        } by {
            let y = s1.order[k];
            assert(!s1.queue.contains(y));
            if k == s.arrived {
                assert(s1.queue.contains(x));
                assert(false);
            } else {
                assert(!s.queue.contains(y));
                assert(in_admitted(s, y));
                assert(is_finished(s, y));
            }
        }
        assert forall|k: int| 0 <= k < s1.arrived implies {
            let j = s1.jobs[#[trigger] s1.order[k] as int];
            j.needed - j.remaining <= s1.tick - j.arrival
        } by {
            if k == s.arrived {
                let j = s1.jobs[x as int];
                assert(j.remaining == j.needed);
                assert(j.arrival <= s1.tick);
            }
        }
        assert(inv(alg, s1, jobs0));
        lemma_admit_all(alg, s1, jobs0);
        assert(admit_all(s) == admit_all(s1));
    }
}

/// Dispatch preserves the invariant in its mid-tick form and changes
/// nothing but the queue, the running job and its segment start.
pub proof fn lemma_dispatch_mid(alg: Algorithm, s: SimState, jobs0: Seq<JobView>)
    requires
        inv(alg, s, jobs0),
        alg is ShortestJobNext || alg is ShortestRemainingTime || alg is RoundRobin,
    ensures
        inv_mid(alg, dispatch(alg, s), jobs0),
        dispatch(alg, s).jobs == s.jobs,
        dispatch(alg, s).order == s.order,
        dispatch(alg, s).arrived == s.arrived,
        dispatch(alg, s).tick == s.tick,
        dispatch(alg, s).timeline == s.timeline,
        dispatch(alg, s).finished == s.finished,
        dispatch(alg, s).current is None ==> (s.current is None && s.queue.len() == 0),
        s.current is Some ==> dispatch(alg, s) == s,
{
    if s.current is None && s.queue.len() > 0 {
        let q = dispatch_queue(alg, s);
        match alg {
            Algorithm::ShortestJobNext => {
                lemma_sort_indices_multiset(s.queue, s.jobs, SortKey::Needed);
                lemma_sort_indices_entries(s.queue, s.jobs, SortKey::Needed);
            },
            Algorithm::ShortestRemainingTime => {
                lemma_sort_indices_multiset(s.queue, s.jobs, SortKey::Remaining);
                lemma_sort_indices_entries(s.queue, s.jobs, SortKey::Remaining);
            },
            _ => {},
        }
        assert(q.len() == s.queue.len());
        assert(q.no_duplicates());
        assert(forall|y: usize| #[trigger] q.contains(y) <==> s.queue.contains(y));
        let c = q[0];
        assert(q.contains(c));
        assert(s.queue.contains(c));
        lemma_drop_first_props(q);
        let s2 = dispatch(alg, s);
        assert(s2 == SimState { queue: q.drop_first(), current: Some(c), seg_start: s.tick, ..s });
        assert forall|y: usize| #[trigger] s2.queue.contains(y) implies y < s2.jobs.len()
            && in_admitted(s2, y) by {
            assert(q.contains(y));
            assert(s.queue.contains(y));
            let j = choose|j: int| 0 <= j < s.arrived && s.order[j] == y;
            assert(0 <= j < s2.arrived && s2.order[j] == y);
        }
        assert(in_admitted(s2, c)) by {
            let j = choose|j: int| 0 <= j < s.arrived && s.order[j] == c;
            assert(0 <= j < s2.arrived && s2.order[j] == c);
        }
        assert forall|k: int|
            0 <= k < s2.arrived && is_finished(s2, #[trigger] s2.order[k]) implies {
            let j = s2.jobs[s2.order[k] as int];
            &&& j.remaining == 0
            &&& j.completion >= j.arrival + j.needed
            &&& j.completion == j.arrival + j.turnaround
            &&& j.completion <= s2.tick
        } by {
            let y = s2.order[k];
            assert(y != c);
            assert(!s2.queue.contains(y));
            assert(!s.queue.contains(y));
            assert(in_admitted(s, y));
            assert(is_finished(s, y));
        }
        if alg is ShortestJobNext {
            assert(s.jobs[c as int].remaining == s.jobs[c as int].needed);
        }
        assert(inv_timeline(alg, s2, jobs0)) by {
            if all_positive(jobs0) {
                assert forall|i: usize| i < s2.jobs.len() implies #[trigger] closed_dur(
                    s2.timeline,
                    i,
                ) == (s2.jobs[i as int].needed - s2.jobs[i as int].remaining) - (if s2.current
                    == Some(i) {
                    s2.tick - s2.seg_start
                } else {
                    0int
                }) by {
                    assert(closed_dur(s.timeline, i) == (s.jobs[i as int].needed - s.jobs[i
                        as int].remaining) - 0);
                }
            }
        }
        assert(inv_mid(alg, s2, jobs0));
    }
}

/// The shortest-remaining-time preemption check preserves the mid-tick
/// invariant; it never idles the CPU or changes the clock, the arena or
/// the admitted count.
#[verifier::rlimit(100)]
pub proof fn lemma_srt_preempt_mid(s: SimState, jobs0: Seq<JobView>)
    requires
        inv_mid(Algorithm::ShortestRemainingTime, s, jobs0),
    ensures
        inv_mid(Algorithm::ShortestRemainingTime, srt_preempt(s), jobs0),
        srt_preempt(s).jobs == s.jobs,
        srt_preempt(s).order == s.order,
        srt_preempt(s).arrived == s.arrived,
        srt_preempt(s).tick == s.tick,
        srt_preempt(s).finished == s.finished,
        srt_preempt(s).current is None <==> s.current is None,
        s.current is None ==> srt_preempt(s) == s,
        cur_live_weak(s) && s.current is Some ==> cur_live_weak(srt_preempt(s)),
{
    let alg = Algorithm::ShortestRemainingTime;
    match s.current {
        None => {},
        Some(c) => {
            lemma_sort_indices_multiset(s.queue, s.jobs, SortKey::Remaining);
            lemma_sort_indices_entries(s.queue, s.jobs, SortKey::Remaining);
            let q = sort_indices(s.queue, s.jobs, SortKey::Remaining);
            assert(q.len() == s.queue.len());
            assert(forall|y: usize| #[trigger] q.contains(y) <==> s.queue.contains(y));
            let s2 = srt_preempt(s);
            if q.len() > 0 && s.jobs[c as int].remaining > 0 && s.jobs[c as int].remaining
                > s.jobs[q[0] as int].remaining {
                let h = q[0];
                assert(q.contains(h));
                assert(s.queue.contains(h));
                assert(!q.contains(c));
                lemma_drop_first_props(q);
                lemma_push_contains(q.drop_first(), c);
                lemma_push_no_dup(q.drop_first(), c);
                let seg = SegI { job: c, start: s.seg_start, end: s.tick };
                assert(s2 == SimState {
                    timeline: s.timeline.push(seg),
                    queue: q.drop_first().push(c),
                    current: Some(h),
                    seg_start: s.tick,
                    ..s
                });
                assert forall|y: usize| #[trigger] s2.queue.contains(y) implies y < s2.jobs.len()
                    && in_admitted(s2, y) by {
                    if y == c {
                        let j = choose|j: int| 0 <= j < s.arrived && s.order[j] == c;
                        assert(0 <= j < s2.arrived && s2.order[j] == y);
                    } else {
                        assert(q.drop_first().contains(y));
                        assert(s.queue.contains(y));
                        let j = choose|j: int| 0 <= j < s.arrived && s.order[j] == y;
                        assert(0 <= j < s2.arrived && s2.order[j] == y);
                    }
                }
                assert(in_admitted(s2, h)) by {
                    let j = choose|j: int| 0 <= j < s.arrived && s.order[j] == h;
                    assert(0 <= j < s2.arrived && s2.order[j] == h);
                }
                assert(!s2.queue.contains(h));
                assert forall|k: int|
                    0 <= k < s2.arrived && is_finished(s2, #[trigger] s2.order[k]) implies {
                    let j = s2.jobs[s2.order[k] as int];
                    &&& j.remaining == 0
                    &&& j.completion >= j.arrival + j.needed
                    &&& j.completion == j.arrival + j.turnaround
                    &&& j.completion <= s2.tick
                } by {
                    let y = s2.order[k];
                    assert(y != h);
                    assert(!s2.queue.contains(y));
                    assert(y != c);
                    assert(!q.drop_first().contains(y));
                    assert(!s.queue.contains(y));
                    assert(is_finished(s, y));
                }
                assert(inv_timeline(alg, s2, jobs0)) by {
                    assert forall|a: int| 0 <= a < s2.timeline.len() implies {
                        &&& (#[trigger] s2.timeline[a]).job < s2.jobs.len()
                        &&& 0 <= s2.timeline[a].start
                        &&& s2.timeline[a].start <= s2.timeline[a].end
                        &&& s2.timeline[a].end <= s2.tick
                    } by {
                        if a < s.timeline.len() {
                            assert(s2.timeline[a] == s.timeline[a]);
                        } else {
                            assert(s2.timeline[a] == seg);
                        }
                    }
                    assert forall|a: int| 0 <= a < s2.timeline.len() - 1 implies (
                    #[trigger] s2.timeline[a]).end <= s2.timeline[a + 1].start by {
                        if a < s.timeline.len() - 1 {
                            assert(s2.timeline[a] == s.timeline[a]);
                            assert(s2.timeline[a + 1] == s.timeline[a + 1]);
                        } else {
                            assert(s2.timeline[a] == s.timeline.last());
                            assert(s2.timeline[a + 1] == seg);
                        }
                    }
                    if all_positive(jobs0) {
                        assert forall|i: usize| i < s2.jobs.len() implies #[trigger] closed_dur(
                            s2.timeline,
                            i,
                        ) == (s2.jobs[i as int].needed - s2.jobs[i as int].remaining) - (if s2
                            .current == Some(i) {
                            s2.tick - s2.seg_start
                        } else {
                            0int
                        }) by {
                            lemma_closed_dur_push(s.timeline, seg, i);
                        }
                    }
                }
                assert(inv_mid(alg, s2, jobs0));
            } else {
                assert(s2 == SimState { queue: q, ..s });
                assert forall|y: usize| #[trigger] s2.queue.contains(y) implies y < s2.jobs.len()
                    && in_admitted(s2, y) by {
                    assert(s.queue.contains(y));
                    let j = choose|j: int| 0 <= j < s.arrived && s.order[j] == y;
                    assert(0 <= j < s2.arrived && s2.order[j] == y);
                }
                assert(in_admitted(s2, c)) by {
                    let j = choose|j: int| 0 <= j < s.arrived && s.order[j] == c;
                    assert(0 <= j < s2.arrived && s2.order[j] == c);
                }
                assert forall|k: int|
                    0 <= k < s2.arrived && is_finished(s2, #[trigger] s2.order[k]) implies {
                    let j = s2.jobs[s2.order[k] as int];
                    &&& j.remaining == 0
                    &&& j.completion >= j.arrival + j.needed
                    &&& j.completion == j.arrival + j.turnaround
                    &&& j.completion <= s2.tick
                } by {
                    let y = s2.order[k];
                    assert(!s2.queue.contains(y));
                    assert(!s.queue.contains(y));
                    assert(is_finished(s, y));
                }
                assert(inv_mid(alg, s2, jobs0));
            }
        },
    }
}

/// The round-robin preemption check preserves the mid-tick invariant.
/// It only fires when the running job was not dispatched this very tick,
/// so that job still has service left and may be requeued.
pub proof fn lemma_rr_preempt_mid(
    s: SimState,
    jobs0: Seq<JobView>,
    time_quantum: u32,
    just_dispatched: bool,
)
    requires
        inv_mid(Algorithm::RoundRobin { time_quantum }, s, jobs0),
        !just_dispatched ==> cur_live(s),
    ensures
        inv_mid(
            Algorithm::RoundRobin { time_quantum },
            rr_preempt(s, time_quantum as int, just_dispatched),
            jobs0,
        ),
        rr_preempt(s, time_quantum as int, just_dispatched).jobs == s.jobs,
        rr_preempt(s, time_quantum as int, just_dispatched).order == s.order,
        rr_preempt(s, time_quantum as int, just_dispatched).arrived == s.arrived,
        rr_preempt(s, time_quantum as int, just_dispatched).tick == s.tick,
        rr_preempt(s, time_quantum as int, just_dispatched).finished == s.finished,
        rr_preempt(s, time_quantum as int, just_dispatched).current is None <==> s.current
            is None,
        s.current is None ==> rr_preempt(s, time_quantum as int, just_dispatched) == s,
        cur_live_weak(s) ==> cur_live_weak(rr_preempt(s, time_quantum as int, just_dispatched)),
{
    let alg = Algorithm::RoundRobin { time_quantum };
    let tq = time_quantum as int;
    match s.current {
        None => {},
        Some(c) => {
            let s2 = rr_preempt(s, tq, just_dispatched);
            if s.tick % tq == 0 && !just_dispatched && s.queue.len() > 0 {
                let h = s.queue[0];
                lemma_drop_first_props(s.queue);
                assert(s.queue.contains(h));
                assert(!s.queue.drop_first().contains(c)) by {
                    if s.queue.drop_first().contains(c) {
                        assert(s.queue.contains(c));
                        assert(false);
                    }
                }
                lemma_push_contains(s.queue.drop_first(), c);
                lemma_push_no_dup(s.queue.drop_first(), c);
                let seg = SegI { job: c, start: s.seg_start, end: s.tick };
                assert(s2 == SimState {
                    timeline: s.timeline.push(seg),
                    queue: s.queue.drop_first().push(c),
                    current: Some(h),
                    seg_start: s.tick,
                    ..s
                });
                assert forall|y: usize| #[trigger] s2.queue.contains(y) implies y < s2.jobs.len()
                    && in_admitted(s2, y) by {
                    if y == c {
                        let j = choose|j: int| 0 <= j < s.arrived && s.order[j] == c;
                        assert(0 <= j < s2.arrived && s2.order[j] == y);
                    } else {
                        assert(s.queue.drop_first().contains(y));
                        assert(s.queue.contains(y));
                        let j = choose|j: int| 0 <= j < s.arrived && s.order[j] == y;
                        assert(0 <= j < s2.arrived && s2.order[j] == y);
                    }
                }
                assert(in_admitted(s2, h)) by {
                    let j = choose|j: int| 0 <= j < s.arrived && s.order[j] == h;
                    assert(0 <= j < s2.arrived && s2.order[j] == h);
                }
                assert(!s2.queue.contains(h));
                assert forall|k: int|
                    0 <= k < s2.arrived && is_finished(s2, #[trigger] s2.order[k]) implies {
                    let j = s2.jobs[s2.order[k] as int];
                    &&& j.remaining == 0
                    &&& j.completion >= j.arrival + j.needed
                    &&& j.completion == j.arrival + j.turnaround
                    &&& j.completion <= s2.tick
                } by {
                    let y = s2.order[k];
                    assert(y != h);
                    assert(!s2.queue.contains(y));
                    assert(y != c);
                    assert(!s.queue.drop_first().contains(y));
                    assert(!s.queue.contains(y));
                    assert(is_finished(s, y));
                }
                assert(inv_timeline(alg, s2, jobs0)) by {
                    assert forall|a: int| 0 <= a < s2.timeline.len() implies {
                        &&& (#[trigger] s2.timeline[a]).job < s2.jobs.len()
                        &&& 0 <= s2.timeline[a].start
                        &&& s2.timeline[a].start <= s2.timeline[a].end
                        &&& s2.timeline[a].end <= s2.tick
                    } by {
                        if a < s.timeline.len() {
                            assert(s2.timeline[a] == s.timeline[a]);
                        } else {
                            assert(s2.timeline[a] == seg);
                        }
                    }
                    assert forall|a: int| 0 <= a < s2.timeline.len() - 1 implies (
                    #[trigger] s2.timeline[a]).end <= s2.timeline[a + 1].start by {
                        if a < s.timeline.len() - 1 {
                            assert(s2.timeline[a] == s.timeline[a]);
                            assert(s2.timeline[a + 1] == s.timeline[a + 1]);
                        } else {
                            assert(s2.timeline[a] == s.timeline.last());
                            assert(s2.timeline[a + 1] == seg);
                        }
                    }
                    if all_positive(jobs0) {
                        assert forall|i: usize| i < s2.jobs.len() implies #[trigger] closed_dur(
                            s2.timeline,
                            i,
                        ) == (s2.jobs[i as int].needed - s2.jobs[i as int].remaining) - (if s2
                            .current == Some(i) {
                            s2.tick - s2.seg_start
                        } else {
                            0int
                        }) by {
                            lemma_closed_dur_push(s.timeline, seg, i);
                        }
                    }
                }
                assert(inv_mid(alg, s2, jobs0));
            }
        },
    }
}

/// One tick of service, followed by the clock advance, turns the
/// mid-tick invariant back into the full run invariant. An idle tick is
/// only possible while the next arrival is still in the future, which
/// keeps the clock bound.
pub proof fn lemma_service_final(alg: Algorithm, s: SimState, jobs0: Seq<JobView>)
    requires
        alg is ShortestJobNext || alg is ShortestRemainingTime || alg is RoundRobin,
        inv_mid(alg, s, jobs0),
        s.current is None ==> s.queue.len() == 0 && !can_admit(s) && s.finished < s.order.len(),
    ensures
        service(alg, s).tick == s.tick,
        inv(alg, SimState { tick: s.tick + 1, ..service(alg, s) }, jobs0),
{
    let sf = SimState { tick: s.tick + 1, ..service(alg, s) };
    match s.current {
        None => {
            assert(service(alg, s) == s);
            if all_positive(jobs0) {
                assert(s.finished == s.arrived);
                assert(s.arrived < s.order.len());
                let x = s.order[s.arrived];
                assert(s.jobs[x as int].arrival > s.tick);
                lemma_max_arrival_ge(jobs0, x as int);
                lemma_total_remaining_bounds(s.jobs);
                lemma_total_needed_congruence(s.jobs, jobs0);
                assert(s.tick + 1 <= max_arrival(jobs0) + (total_needed(jobs0) - total_remaining(
                    s.jobs,
                )));
            }
            assert forall|k: int|
                0 <= k < sf.arrived && is_finished(sf, #[trigger] sf.order[k]) implies {
                let j = sf.jobs[sf.order[k] as int];
                &&& j.remaining == 0
                &&& j.completion >= j.arrival + j.needed
                &&& j.completion == j.arrival + j.turnaround
                &&& j.completion <= sf.tick
            } by {
                assert(is_finished(s, s.order[k]));
            }
            assert(inv(alg, sf, jobs0));
        },
        Some(c) => {
            let ci = c as int;
            let j0 = s.jobs[ci];
            let jobs1 = if j0.remaining > 0 {
                s.jobs.update(ci, JobView { remaining: j0.remaining - 1, ..j0 })
            } else {
                s.jobs
            };
            let jc = choose|j: int| 0 <= j < s.arrived && s.order[j] == c;
            assert(s.jobs[s.order[jc] as int].needed - s.jobs[s.order[jc] as int].remaining
                <= s.tick - s.jobs[s.order[jc] as int].arrival);
            assert(j0.needed - j0.remaining <= s.tick - j0.arrival);
            assert(!s.queue.contains(c));
            if jobs1[ci].remaining == 0 {
                let seg = match alg {
                    Algorithm::ShortestJobNext => SegI {
                        job: c,
                        start: s.tick + 1 - jobs1[ci].needed,
                        end: s.tick + 1,
                    },
                    _ => SegI { job: c, start: s.seg_start, end: s.tick + 1 },
                };
                let jobs2 = jobs1.update(
                    ci,
                    JobView {
                        completion: s.tick + 1,
                        turnaround: s.tick + 1 - jobs1[ci].arrival,
                        ..jobs1[ci]
                    },
                );
                assert(service(alg, s) == SimState {
                    jobs: jobs2,
                    timeline: s.timeline.push(seg),
                    finished: s.finished + 1,
                    current: None,
                    ..s
                });
                assert(forall|i: int|
                    0 <= i < s.jobs.len() && i != ci ==> jobs2[i] == #[trigger] s.jobs[i]);
                assert(jobs2[ci].remaining == 0);
                assert(jobs2[ci].completion == s.tick + 1);
                assert(jobs2[ci].completion >= jobs2[ci].arrival + jobs2[ci].needed) by {
                    if j0.remaining > 0 {
                        assert(jobs1[ci].remaining == j0.remaining - 1);
                        assert(j0.remaining == 1);
                    } else {
                        assert(j0.needed == 0 || j0.remaining >= 1);
                        assert(j0.needed == 0);
                    }
                }
                if alg is ShortestJobNext {
                    assert(j0.needed - j0.remaining == s.tick - s.seg_start);
                    assert(seg.start >= s.seg_start);
                } else {
                    assert(seg.start == s.seg_start);
                }
                assert(0 <= seg.start <= seg.end <= sf.tick);
                assert forall|y: usize| #[trigger] sf.queue.contains(y) implies y < sf.jobs.len()
                    && in_admitted(sf, y) by {
                    assert(s.queue.contains(y));
                    let j = choose|j: int| 0 <= j < s.arrived && s.order[j] == y;
                    assert(0 <= j < sf.arrived && sf.order[j] == y);
                }
                assert forall|y: usize| #[trigger] sf.queue.contains(y) implies (sf.jobs[y
                    as int].needed > 0 ==> sf.jobs[y as int].remaining >= 1) by {
                    assert(s.queue.contains(y));
                    assert(y != c);
                }
                if alg is ShortestJobNext {
                    assert forall|y: usize| #[trigger] sf.queue.contains(y) implies sf.jobs[y
                        as int].remaining == sf.jobs[y as int].needed by {
                        assert(s.queue.contains(y));
                        assert(y != c);
                    }
                }
                assert forall|k: int| sf.arrived <= k < sf.order.len() implies {
                    let j = sf.jobs[#[trigger] sf.order[k] as int];
                    j.remaining == j.needed && j.completion == 0 && j.turnaround == 0
                } by {
                    assert(s.order[k] != s.order[jc]);
                    assert(sf.jobs[sf.order[k] as int] == s.jobs[s.order[k] as int]);
                }
                assert forall|k: int| 0 <= k < sf.arrived implies {
                    let j = sf.jobs[#[trigger] sf.order[k] as int];
                    j.needed - j.remaining <= sf.tick - j.arrival
                } by {
                    let y = s.order[k];
                    assert(s.jobs[s.order[k] as int].needed - s.jobs[s.order[k] as int].remaining
                        <= s.tick - s.jobs[s.order[k] as int].arrival);
                    if y == c {
                        assert(jobs2[ci].needed <= s.tick + 1 - jobs2[ci].arrival);
                    }
                }
                assert forall|k: int|
                    0 <= k < sf.arrived && is_finished(sf, #[trigger] sf.order[k]) implies {
                    let j = sf.jobs[sf.order[k] as int];
                    &&& j.remaining == 0
                    &&& j.completion >= j.arrival + j.needed
                    &&& j.completion == j.arrival + j.turnaround
                    &&& j.completion <= sf.tick
                } by {
                    let y = sf.order[k];
                    if y != c {
                        assert(!s.queue.contains(y));
                        assert(is_finished(s, y));
                        assert(sf.jobs[y as int] == s.jobs[y as int]);
                    }
                }
                assert(inv_timeline(alg, sf, jobs0)) by {
                    assert forall|a: int| 0 <= a < sf.timeline.len() implies {
                        &&& (#[trigger] sf.timeline[a]).job < sf.jobs.len()
                        &&& 0 <= sf.timeline[a].start
                        &&& sf.timeline[a].start <= sf.timeline[a].end
                        &&& sf.timeline[a].end <= sf.tick
                    } by {
                        if a < s.timeline.len() {
                            assert(sf.timeline[a] == s.timeline[a]);
                        } else {
                            assert(sf.timeline[a] == seg);
                        }
                    }
                    assert forall|a: int| 0 <= a < sf.timeline.len() - 1 implies (
                    #[trigger] sf.timeline[a]).end <= sf.timeline[a + 1].start by {
                        if a < s.timeline.len() - 1 {
                            assert(sf.timeline[a] == s.timeline[a]);
                            assert(sf.timeline[a + 1] == s.timeline[a + 1]);
                        } else {
                            assert(sf.timeline[a] == s.timeline.last());
                            assert(sf.timeline[a + 1] == seg);
                        }
                    }
                    if all_positive(jobs0) {
                        assert(j0.needed == jobs0[ci].needed);
                        assert(j0.needed >= 1);
                        assert(j0.remaining == 1);
                        assert forall|i: usize| i < sf.jobs.len() implies #[trigger] closed_dur(
                            sf.timeline,
                            i,
                        ) == (sf.jobs[i as int].needed - sf.jobs[i as int].remaining) - (if sf
                            .current == Some(i) {
                            sf.tick - sf.seg_start
                        } else {
                            0int
                        }) by {
                            lemma_closed_dur_push(s.timeline, seg, i);
                            if i == c {
                                assert(closed_dur(s.timeline, i) == (j0.needed - j0.remaining) - (
                                s.tick - s.seg_start));
                            }
                        }
                    }
                }
                if all_positive(jobs0) {
                    assert(j0.remaining == 1);
                    lemma_total_remaining_delta(s.jobs, jobs2, ci);
                }
                assert(inv(alg, sf, jobs0));
            } else {
                assert(j0.remaining > 0);
                assert(jobs1[ci].remaining == j0.remaining - 1);
                assert(service(alg, s) == SimState { jobs: jobs1, ..s });
                assert(forall|i: int|
                    0 <= i < s.jobs.len() && i != ci ==> jobs1[i] == #[trigger] s.jobs[i]);
                assert forall|y: usize| #[trigger] sf.queue.contains(y) implies y < sf.jobs.len()
                    && in_admitted(sf, y) by {
                    assert(s.queue.contains(y));
                    let j = choose|j: int| 0 <= j < s.arrived && s.order[j] == y;
                    assert(0 <= j < sf.arrived && sf.order[j] == y);
                }
                assert forall|y: usize| #[trigger] sf.queue.contains(y) implies (sf.jobs[y
                    as int].needed > 0 ==> sf.jobs[y as int].remaining >= 1) by {
                    assert(s.queue.contains(y));
                    assert(y != c);
                }
                if alg is ShortestJobNext {
                    assert forall|y: usize| #[trigger] sf.queue.contains(y) implies sf.jobs[y
                        as int].remaining == sf.jobs[y as int].needed by {
                        assert(s.queue.contains(y));
                        assert(y != c);
                    }
                }
                assert forall|k: int| sf.arrived <= k < sf.order.len() implies {
                    let j = sf.jobs[#[trigger] sf.order[k] as int];
                    j.remaining == j.needed && j.completion == 0 && j.turnaround == 0
                } by {
                    assert(s.order[k] != s.order[jc]);
                    assert(sf.jobs[sf.order[k] as int] == s.jobs[s.order[k] as int]);
                }
                assert forall|k: int| 0 <= k < sf.arrived implies {
                    let j = sf.jobs[#[trigger] sf.order[k] as int];
                    j.needed - j.remaining <= sf.tick - j.arrival
                } by {
                    assert(s.jobs[s.order[k] as int].needed - s.jobs[s.order[k] as int].remaining
                        <= s.tick - s.jobs[s.order[k] as int].arrival);
                }
                assert forall|k: int|
                    0 <= k < sf.arrived && is_finished(sf, #[trigger] sf.order[k]) implies {
                    let j = sf.jobs[sf.order[k] as int];
                    &&& j.remaining == 0
                    &&& j.completion >= j.arrival + j.needed
                    &&& j.completion == j.arrival + j.turnaround
                    &&& j.completion <= sf.tick
                } by {
                    let y = sf.order[k];
                    assert(y != c);
                    assert(!s.queue.contains(y));
                    assert(is_finished(s, y));
                    assert(sf.jobs[y as int] == s.jobs[y as int]);
                }
                assert(inv_timeline(alg, sf, jobs0)) by {
                    if all_positive(jobs0) {
                        assert forall|i: usize| i < sf.jobs.len() implies #[trigger] closed_dur(
                            sf.timeline,
                            i,
                        ) == (sf.jobs[i as int].needed - sf.jobs[i as int].remaining) - (if sf
                            .current == Some(i) {
                            sf.tick - sf.seg_start
                        } else {
                            0int
                        }) by {
                            assert(closed_dur(s.timeline, i) == (s.jobs[i as int].needed - s.jobs[i
                                as int].remaining) - (if s.current == Some(i) {
                                s.tick - s.seg_start
                            } else {
                                0int
                            }));
                        }
                    }
                }
                if all_positive(jobs0) {
                    lemma_total_remaining_delta(s.jobs, jobs1, ci);
                }
                assert(inv(alg, sf, jobs0));
            }
        },
    }
}

/// One more job extends the prefix sum of required times by its own.
pub proof fn lemma_total_needed_take_step(jobs: Seq<JobView>, i: int)
    requires
        0 <= i < jobs.len(),
    ensures
        total_needed(jobs.take(i + 1)) == total_needed(jobs.take(i)) + jobs[i].needed,
{
    assert(jobs.take(i + 1).drop_last() =~= jobs.take(i));
    assert(jobs.take(i + 1).last() == jobs[i]);
}

/// One more job extends the prefix maximum of arrival times.
pub proof fn lemma_max_arrival_take_step(jobs: Seq<JobView>, i: int)
    requires
        0 <= i < jobs.len(),
    ensures
        max_arrival(jobs.take(i + 1)) == if jobs[i].arrival > max_arrival(jobs.take(i)) {
            jobs[i].arrival
        } else {
            max_arrival(jobs.take(i))
        },
{
    assert(jobs.take(i + 1).drop_last() =~= jobs.take(i));
    assert(jobs.take(i + 1).last() == jobs[i]);
}

/// The sum of nonnegative required times is nonnegative.
pub proof fn lemma_total_needed_nonneg(jobs: Seq<JobView>)
    requires
        forall|i: int| 0 <= i < jobs.len() ==> (#[trigger] jobs[i]).needed >= 0,
    ensures
        total_needed(jobs) >= 0,
    decreases jobs.len(),
{
    if jobs.len() > 0 {
        lemma_total_needed_nonneg(jobs.drop_last());
    }
}

/// A prefix sum of nonnegative required times never exceeds the whole
/// sum.
pub proof fn lemma_total_needed_take_le(jobs: Seq<JobView>, i: int)
    requires
        0 <= i <= jobs.len(),
        forall|k: int| 0 <= k < jobs.len() ==> (#[trigger] jobs[k]).needed >= 0,
    ensures
        total_needed(jobs.take(i)) <= total_needed(jobs),
    decreases jobs.len() - i,
{
    if i == jobs.len() {
        assert(jobs.take(i) =~= jobs);
    } else {
        lemma_total_needed_take_step(jobs, i);
        lemma_total_needed_take_le(jobs, i + 1);
    }
}

/// No single required time exceeds the sum of all of them.
pub proof fn lemma_needed_le_total(jobs: Seq<JobView>, i: int)
    requires
        0 <= i < jobs.len(),
        forall|k: int| 0 <= k < jobs.len() ==> (#[trigger] jobs[k]).needed >= 0,
    ensures
        jobs[i].needed <= total_needed(jobs),
{
    lemma_total_needed_take_step(jobs, i);
    lemma_total_needed_take_le(jobs, i + 1);
    assert forall|k: int| 0 <= k < jobs.take(i).len() implies (#[trigger] jobs.take(
        i,
    )[k]).needed >= 0 by {
        assert(jobs.take(i)[k] == jobs[k]);
    }
    lemma_total_needed_nonneg(jobs.take(i));
}

/// The identity index sequence is duplicate-free and holds exactly the
/// indices below `n`.
pub proof fn lemma_identity_props(n: nat)
    requires
        n <= usize::MAX,
    ensures
        identity_order(n).len() == n,
        identity_order(n).no_duplicates(),
        forall|y: usize| #[trigger] identity_order(n).contains(y) ==> y < n,
{
    assert forall|y: usize| #[trigger] identity_order(n).contains(y) implies y < n by {
        let i = choose|i: int| 0 <= i < identity_order(n).len() && identity_order(n)[i] == y;
        assert(identity_order(n)[i] == i as usize);
    }
}

/// When every remaining time equals the required time, their sums agree.
pub proof fn lemma_total_remaining_eq_needed(jobs: Seq<JobView>)
    requires
        forall|i: int| 0 <= i < jobs.len() ==> (#[trigger] jobs[i]).remaining == jobs[i].needed,
    ensures
        total_remaining(jobs) == total_needed(jobs),
    decreases jobs.len(),
{
    if jobs.len() > 0 {
        lemma_total_remaining_eq_needed(jobs.drop_last());
    }
}

/// The state a run starts from satisfies the run invariant, relative to
/// its own fresh arena.
pub proof fn lemma_init_inv(alg: Algorithm, jv: Seq<JobView>)
    requires
        jv.len() <= usize::MAX,
        forall|i: int|
            0 <= i < jv.len() ==> (#[trigger] jv[i]).needed >= 0 && jv[i].arrival >= 0,
    ensures
        inv(alg, init_state(jv), init_jobs(jv)),
        init_state(jv).order.len() == jv.len(),
        init_state(jv).jobs == init_jobs(jv),
        init_state(jv).tick == 0,
        init_state(jv).finished == 0,
{
    broadcast use vstd::seq_lib::group_to_multiset_ensures;

    let ijobs = init_jobs(jv);
    let ident = identity_order(jv.len() as nat);
    let s = init_state(jv);
    lemma_identity_props(jv.len() as nat);
    lemma_sort_indices_multiset(ident, ijobs, SortKey::Arrival);
    lemma_sort_indices_entries(ident, ijobs, SortKey::Arrival);
    assert forall|k: int| 0 <= k < s.order.len() implies #[trigger] s.order[k] < s.jobs.len() by {
        assert(s.order.contains(s.order[k]));
        assert(ident.contains(s.order[k]));
    }
    assert(inv_structure(s));
    assert(inv_jobs(s, ijobs)) by {
        assert forall|k: int| s.arrived <= k < s.order.len() implies {
            let j = s.jobs[#[trigger] s.order[k] as int];
            j.remaining == j.needed && j.completion == 0 && j.turnaround == 0
        } by {
            assert(s.order.contains(s.order[k]));
            assert(ident.contains(s.order[k]));
            assert(s.jobs[s.order[k] as int] == init_job(jv[s.order[k] as int]));
        }
    }
    assert(inv_timeline(alg, s, ijobs)) by {
        if all_positive(ijobs) {
            assert forall|i: usize| i < s.jobs.len() implies #[trigger] closed_dur(s.timeline, i)
                == (s.jobs[i as int].needed - s.jobs[i as int].remaining) - (if s.current == Some(
                i,
            ) {
                s.tick - s.seg_start
            } else {
                0int
            }) by {
                assert(s.jobs[i as int].remaining == s.jobs[i as int].needed);
            }
        }
    }
    assert(inv_clock(s, ijobs)) by {
        if all_positive(ijobs) {
            lemma_total_remaining_eq_needed(ijobs);
            if jv.len() > 0 {
                lemma_max_arrival_ge(ijobs, 0);
            }
        }
    }
}

/// An admitted job has received no more service than the time since its
/// arrival; in particular it has already arrived.
pub proof fn lemma_admitted_job_facts(s: SimState, jobs0: Seq<JobView>, c: usize)
    requires
        inv_structure(s),
        inv_jobs(s, jobs0),
        in_admitted(s, c),
        c < s.jobs.len(),
    ensures
        s.jobs[c as int].needed - s.jobs[c as int].remaining <= s.tick - s.jobs[c as int].arrival,
        s.jobs[c as int].arrival <= s.tick,
{
    let k = choose|k: int| 0 <= k < s.arrived && s.order[k] == c;
    assert(s.jobs[s.order[k] as int].needed - s.jobs[s.order[k] as int].remaining <= s.tick
        - s.jobs[s.order[k] as int].arrival);
}

/// Whether `alg` is one of the tick-driven policies, with a usable time
/// quantum where one is required.
pub open spec fn tick_driven(alg: Algorithm) -> bool {
    match alg {
        Algorithm::ShortestJobNext | Algorithm::ShortestRemainingTime => true,
        Algorithm::RoundRobin { time_quantum } => time_quantum >= 1,
        _ => false,
    }
}

/// One full tick preserves the run invariant and advances the clock by
/// one.
#[verifier::rlimit(100)]
pub proof fn lemma_step_inv(alg: Algorithm, s: SimState, jobs0: Seq<JobView>)
    requires
        inv(alg, s, jobs0),
        s.finished < s.order.len(),
        tick_driven(alg),
    ensures
        inv(alg, step(alg, s), jobs0),
        step(alg, s).tick == s.tick + 1,
        step(alg, s).order == s.order,
{
    let s1 = admit_all(s);
    lemma_admit_all(alg, s, jobs0);
    let just = s1.current is None && s1.queue.len() > 0;
    let s2 = dispatch(alg, s1);
    lemma_dispatch_mid(alg, s1, jobs0);
    let s3 = match alg {
        Algorithm::ShortestRemainingTime => srt_preempt(s2),
        Algorithm::RoundRobin { time_quantum } => rr_preempt(s2, time_quantum as int, just),
        _ => s2,
    };
    match alg {
        Algorithm::ShortestRemainingTime => {
            lemma_srt_preempt_mid(s2, jobs0);
        },
        Algorithm::RoundRobin { time_quantum } => {
            if !just {
                assert(cur_live(s2)) by {
                    if s1.current is Some {
                        assert(s2 == s1);
                    }
                }
            }
            lemma_rr_preempt_mid(s2, jobs0, time_quantum, just);
        },
        _ => {},
    }
    assert(inv_mid(alg, s3, jobs0));
    if s3.current is None {
        assert(s2.current is None);
        assert(s1.current is None && s1.queue.len() == 0);
        assert(s3.queue.len() == 0);
        assert(!can_admit(s3));
        assert(s3.finished < s3.order.len());
    }
    lemma_service_final(alg, s3, jobs0);
    assert(step(alg, s) == SimState { tick: s3.tick + 1, ..service(alg, s3) });
}

/// Every state a run passes through satisfies the invariant; a run either
/// finishes every job or stops with the tick-bound error.
pub proof fn lemma_run_inv(alg: Algorithm, s: SimState, jobs0: Seq<JobView>, bound: int)
    requires
        inv(alg, s, jobs0),
        tick_driven(alg),
    ensures
        match run(alg, s, bound) {
            Ok(f) => inv(alg, f, jobs0) && f.finished >= f.order.len() && f.order == s.order,
            Err(e) => e == SchedulerError::TickBoundExceeded,
        },
    decreases bound + 1 - s.tick,
{
    if s.finished >= s.order.len() {
    } else {
        let s2 = step(alg, s);
        lemma_step_inv(alg, s, jobs0);
        if s2.tick <= bound {
            lemma_run_inv(alg, s2, jobs0, bound);
        }
    }
}

/// A run over a job set whose bursts are all positive finishes within
/// `max_arrival + total_needed` ticks: with a large enough bound it never
/// returns the tick-bound error.
pub proof fn lemma_run_ok(alg: Algorithm, s: SimState, jobs0: Seq<JobView>, bound: int)
    requires
        inv(alg, s, jobs0),
        tick_driven(alg),
        all_positive(jobs0),
        bound >= max_arrival(jobs0) + total_needed(jobs0),
    ensures
        run(alg, s, bound) is Ok,
    decreases bound + 1 - s.tick,
{
    if s.finished >= s.order.len() {
    } else {
        let s2 = step(alg, s);
        lemma_step_inv(alg, s, jobs0);
        lemma_total_remaining_bounds(s2.jobs);
        assert(s2.tick <= max_arrival(jobs0) + (total_needed(jobs0) - total_remaining(s2.jobs)));
        assert(s2.tick <= bound);
        lemma_run_ok(alg, s2, jobs0, bound);
    }
}

/// At the end of a finished run the queue is empty, the CPU is idle,
/// every job is finished with its metrics recorded, and (for positive
/// bursts) the timeline accounts for exactly each job's required service.
pub proof fn lemma_final_state(alg: Algorithm, f: SimState, jobs0: Seq<JobView>)
    requires
        inv(alg, f, jobs0),
        f.finished >= f.order.len(),
        f.jobs.len() <= usize::MAX,
    ensures
        f.queue.len() == 0,
        f.current is None,
        f.arrived == f.order.len(),
        forall|i: int|
            0 <= i < f.jobs.len() ==> {
                &&& (#[trigger] f.jobs[i]).remaining == 0
                &&& f.jobs[i].completion >= f.jobs[i].arrival + f.jobs[i].needed
                &&& f.jobs[i].completion == f.jobs[i].arrival + f.jobs[i].turnaround
                &&& f.jobs[i].completion <= f.tick
            },
        all_positive(jobs0) ==> forall|i: usize|
            i < f.jobs.len() ==> #[trigger] closed_dur(f.timeline, i) == jobs0[i as int].needed,
{
    broadcast use vstd::seq_lib::group_to_multiset_ensures;

    assert(f.queue.len() == 0 && f.current is None && f.arrived == f.order.len());
    assert forall|i: int| 0 <= i < f.jobs.len() implies {
        &&& (#[trigger] f.jobs[i]).remaining == 0
        &&& f.jobs[i].completion >= f.jobs[i].arrival + f.jobs[i].needed
        &&& f.jobs[i].completion == f.jobs[i].arrival + f.jobs[i].turnaround
        &&& f.jobs[i].completion <= f.tick
    } by {
        let iu = i as usize;
        assert(identity_order(f.jobs.len() as nat)[i] == iu);
        assert(identity_order(f.jobs.len() as nat).contains(iu));
        assert(f.order.to_multiset().count(iu) > 0);
        assert(f.order.contains(iu));
        let k = choose|k: int| 0 <= k < f.order.len() && f.order[k] == iu;
        assert(!f.queue.contains(iu));
        assert(in_admitted(f, iu));
        assert(is_finished(f, f.order[k]));
    }
    if all_positive(jobs0) {
        assert forall|i: usize| i < f.jobs.len() implies #[trigger] closed_dur(f.timeline, i)
            == jobs0[i as int].needed by {
            assert(closed_dur(f.timeline, i) == (f.jobs[i as int].needed - f.jobs[i
                as int].remaining) - 0);
        }
    }
}

} // verus!
