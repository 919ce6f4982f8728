//! Gap-freeness of the timeline: under the tick-driven policies the CPU
//! never idles while an admitted job is unfinished, so a hole between two
//! consecutive segments can only span time in which every job had either
//! already completed or not yet arrived. These proofs run alongside the
//! main run invariant of [`crate::props`].

use vstd::prelude::*;

use crate::job::JobView;
use crate::props::{
    all_positive, cur_live, in_admitted, inv, inv_mid, is_finished, lemma_admit_all,
    lemma_dispatch_mid, lemma_rr_preempt_mid, lemma_service_final,
    lemma_srt_preempt_mid, lemma_step_inv, tick_driven,
};
use crate::sim::{
    admit_all, can_admit, dispatch, identity_order, init_jobs, init_state, run, rr_preempt,
    service, srt_preempt, step, Algorithm, SegI, SimState,
};
use crate::sort::{key_of, lemma_sort_indices_sorted, SortKey};

verus! {

/// The end of the last recorded segment, or zero while none exists.
pub open spec fn last_end(s: SimState) -> int {
    if s.timeline.len() > 0 {
        s.timeline.last().end
    } else {
        0
    }
}

/// Every job either completed by tick `e` or only arrives at tick `st` or
/// later: the span `[e, st)` concerns no job.
pub open spec fn gap_clear(jobs: Seq<JobView>, e: int, st: int) -> bool {
    forall|i: int|
        0 <= i < jobs.len() ==> ((#[trigger] jobs[i]).remaining == 0 && jobs[i].completion <= e)
            || jobs[i].arrival >= st
}

/// The gap-freeness invariant, maintained for job sets without
/// zero-length bursts: every hole in the recorded timeline concerns no
/// job; a finished job completed within the recorded timeline; the CPU is
/// only idle when every job is finished, future, or retired this very
/// tick; a running job whose segment opens past the recorded timeline was
/// dispatched out of such an idle spell; and the admission order is
/// sorted by arrival.
pub open spec fn inv_gaps(s: SimState) -> bool {
    &&& (forall|a: int|
        0 <= a < s.timeline.len() - 1 && (#[trigger] s.timeline[a]).end < s.timeline[a + 1].start
            ==> gap_clear(s.jobs, s.timeline[a].end, s.timeline[a + 1].start))
    &&& (forall|i: int|
        0 <= i < s.jobs.len() && (#[trigger] s.jobs[i]).remaining == 0 ==> s.timeline.len() > 0
            && s.jobs[i].completion <= last_end(s))
    &&& (s.current is None ==> (forall|i: int|
        0 <= i < s.jobs.len() ==> (#[trigger] s.jobs[i]).remaining == 0 || s.jobs[i].arrival
            >= s.tick || (s.timeline.len() > 0 && last_end(s) == s.tick)))
    &&& (match s.current {
        Some(_) => (s.timeline.len() == 0 || last_end(s) < s.seg_start) ==> (forall|i: int|
            0 <= i < s.jobs.len() ==> (#[trigger] s.jobs[i]).remaining == 0 || s.jobs[i].arrival
                >= s.seg_start),
        None => true,
    })
    &&& (forall|k1: int, k2: int|
        0 <= k1 <= k2 < s.order.len() ==> s.jobs[#[trigger] s.order[k1] as int].arrival
            <= s.jobs[#[trigger] s.order[k2] as int].arrival)
}

/// The initial state of a run over positive bursts satisfies the
/// gap-freeness invariant.
pub proof fn lemma_init_gaps(jv: Seq<JobView>)
    requires
        jv.len() <= usize::MAX,
        forall|i: int|
            0 <= i < jv.len() ==> (#[trigger] jv[i]).needed >= 1 && jv[i].arrival >= 0,
    ensures
        inv_gaps(init_state(jv)),
{
    let s = init_state(jv);
    let ijobs = init_jobs(jv);
    lemma_sort_indices_sorted(identity_order(jv.len() as nat), ijobs, SortKey::Arrival);
    assert forall|k1: int, k2: int| 0 <= k1 <= k2 < s.order.len() implies s.jobs[
        #[trigger] s.order[k1] as int].arrival <= s.jobs[#[trigger] s.order[k2] as int].arrival by {
        assert(key_of(ijobs[s.order[k1] as int], SortKey::Arrival) <= key_of(
            ijobs[s.order[k2] as int],
            SortKey::Arrival,
        ));
    }
    assert(forall|i: int|
        0 <= i < s.jobs.len() ==> (#[trigger] s.jobs[i]).remaining == jv[i].needed);
}

/// One tick preserves the gap-freeness invariant.
#[verifier::rlimit(100)]
pub proof fn lemma_step_gaps(alg: Algorithm, s: SimState, jobs0: Seq<JobView>)
    requires
        inv(alg, s, jobs0),
        inv_gaps(s),
        all_positive(jobs0),
        s.finished < s.order.len(),
        s.jobs.len() <= usize::MAX,
        tick_driven(alg),
    ensures
        inv_gaps(step(alg, s)),
{
    broadcast use vstd::seq_lib::group_to_multiset_ensures;

    let s1 = admit_all(s);
    lemma_admit_all(alg, s, jobs0);
    assert(inv_gaps(s1));
    let just = s1.current is None && s1.queue.len() > 0;
    let s2 = dispatch(alg, s1);
    lemma_dispatch_mid(alg, s1, jobs0);
    assert(inv_gaps(s2)) by {
        if s1.current is None && s1.queue.len() > 0 {
            // a dispatch out of an idle spell happens at the dispatched
            // job's own tick of arrival
            if s2.timeline.len() == 0 || last_end(s2) < s2.seg_start {
                assert forall|i: int| 0 <= i < s2.jobs.len() implies (
                #[trigger] s2.jobs[i]).remaining == 0 || s2.jobs[i].arrival >= s2.seg_start by {
                    assert(s1.jobs[i].remaining == 0 || s1.jobs[i].arrival >= s1.tick || (
                    s1.timeline.len() > 0 && last_end(s1) == s1.tick));
                }
            }
        }
    }
    let s3 = match alg {
        Algorithm::ShortestRemainingTime => srt_preempt(s2),
        Algorithm::RoundRobin { time_quantum } => rr_preempt(s2, time_quantum as int, just),
        _ => s2,
    };
    match alg {
        Algorithm::ShortestRemainingTime => {
            lemma_srt_preempt_mid(s2, jobs0);
        },
        Algorithm::RoundRobin { time_quantum } => {
            if !just {
                assert(cur_live(s2)) by {
                    if s1.current is Some {
                        assert(s2 == s1);
                    }
                }
            }
            lemma_rr_preempt_mid(s2, jobs0, time_quantum, just);
        },
        _ => {},
    }
    assert(inv_mid(alg, s3, jobs0));
    assert(inv_gaps(s3)) by {
        lemma_preempt_gaps(alg, s2, s3, jobs0, just);
    }
    if s3.current is None {
        assert(s2.current is None);
        assert(s1.current is None && s1.queue.len() == 0);
    }
    lemma_service_final(alg, s3, jobs0);
    let s4 = service(alg, s3);
    let sf = SimState { tick: s4.tick + 1, ..s4 };
    assert(step(alg, s) == sf);
    lemma_service_gaps(alg, s3, jobs0);
}

/// The preemption checks preserve the gap-freeness invariant: a closed
/// segment ends exactly where the reopened one begins, so no new hole
/// appears, and a hole older than the running job's segment was already
/// accounted for.
proof fn lemma_preempt_gaps(
    alg: Algorithm,
    s2: SimState,
    s3: SimState,
    jobs0: Seq<JobView>,
    just: bool,
)
    requires
        inv_mid(alg, s2, jobs0),
        inv_gaps(s2),
        all_positive(jobs0),
        tick_driven(alg),
        s3 == (match alg {
            Algorithm::ShortestRemainingTime => srt_preempt(s2),
            Algorithm::RoundRobin { time_quantum } => rr_preempt(s2, time_quantum as int, just),
            _ => s2,
        }),
    ensures
        inv_gaps(s3),
{
    match alg {
        Algorithm::ShortestRemainingTime => {
            match s2.current {
                Some(c) => {
                    let q = crate::sort::sort_indices(s2.queue, s2.jobs, SortKey::Remaining);
                    if q.len() > 0 && s2.jobs[c as int].remaining > 0 && s2.jobs[c
                        as int].remaining > s2.jobs[q[0] as int].remaining {
                        let seg = SegI { job: c, start: s2.seg_start, end: s2.tick };
                        assert(s3.timeline == s2.timeline.push(seg));
                        lemma_pushed_segment_gaps(s2, s3, seg, c);
                    } else {
                        assert(s3 == SimState { queue: q, ..s2 });
                    }
                },
                None => {},
            }
        },
        Algorithm::RoundRobin { time_quantum } => {
            match s2.current {
                Some(c) => {
                    if s2.tick % (time_quantum as int) == 0 && !just && s2.queue.len() > 0 {
                        let seg = SegI { job: c, start: s2.seg_start, end: s2.tick };
                        assert(s3.timeline == s2.timeline.push(seg));
                        lemma_pushed_segment_gaps(s2, s3, seg, c);
                    }
                },
                None => {},
            }
        },
        _ => {},
    }
}

/// Appending the running job's closed segment, with the new segment
/// opening at the clock, preserves the gap-freeness pieces about the
/// timeline.
proof fn lemma_pushed_segment_gaps(s2: SimState, s3: SimState, seg: SegI, c: usize)
    requires
        inv_gaps(s2),
        s2.current == Some(c),
        c < s2.jobs.len(),
        s2.jobs[c as int].remaining >= 1 || s2.jobs[c as int].needed == 0,
        seg.start == s2.seg_start,
        s2.tick >= seg.end >= seg.start >= last_end(s2),
        s3.timeline == s2.timeline.push(seg),
        s3.jobs == s2.jobs,
        s3.current is Some,
        s3.seg_start == seg.end,
        s3.tick == s2.tick,
    ensures
        forall|a: int|
            0 <= a < s3.timeline.len() - 1 && (#[trigger] s3.timeline[a]).end < s3.timeline[a
                + 1].start ==> gap_clear(s3.jobs, s3.timeline[a].end, s3.timeline[a + 1].start),
        forall|i: int|
            0 <= i < s3.jobs.len() && (#[trigger] s3.jobs[i]).remaining == 0 ==> s3.timeline.len()
                > 0 && s3.jobs[i].completion <= last_end(s3),
        (s3.timeline.len() == 0 || last_end(s3) < s3.seg_start) ==> (forall|i: int|
            0 <= i < s3.jobs.len() ==> (#[trigger] s3.jobs[i]).remaining == 0 || s3.jobs[i].arrival
                >= s3.seg_start),
{
    assert(last_end(s3) == seg.end);
    assert forall|a: int|
        0 <= a < s3.timeline.len() - 1 && (#[trigger] s3.timeline[a]).end < s3.timeline[a
            + 1].start implies gap_clear(s3.jobs, s3.timeline[a].end, s3.timeline[a + 1].start) by {
        if a < s2.timeline.len() - 1 {
            assert(s3.timeline[a] == s2.timeline[a]);
            assert(s3.timeline[a + 1] == s2.timeline[a + 1]);
        } else {
            assert(s3.timeline[a] == s2.timeline.last());
            assert(s3.timeline[a + 1] == seg);
            assert(last_end(s2) < seg.start);
            assert forall|i: int| 0 <= i < s3.jobs.len() implies ((
            #[trigger] s3.jobs[i]).remaining == 0 && s3.jobs[i].completion <= s3.timeline[a].end)
                || s3.jobs[i].arrival >= s3.timeline[a + 1].start by {
                assert(s2.jobs[i].remaining == 0 || s2.jobs[i].arrival >= s2.seg_start);
            }
        }
    }
}

/// Service and the clock advance preserve the gap-freeness invariant.
#[verifier::rlimit(100)]
proof fn lemma_service_gaps(alg: Algorithm, s3: SimState, jobs0: Seq<JobView>)
    requires
        inv_mid(alg, s3, jobs0),
        inv_gaps(s3),
        all_positive(jobs0),
        tick_driven(alg),
        s3.jobs.len() <= usize::MAX,
        s3.current is None ==> s3.queue.len() == 0 && !can_admit(s3) && s3.finished
            < s3.order.len(),
    ensures
        inv_gaps(SimState { tick: service(alg, s3).tick + 1, ..service(alg, s3) }),
{
    broadcast use vstd::seq_lib::group_to_multiset_ensures;

    let s4 = service(alg, s3);
    let sf = SimState { tick: s4.tick + 1, ..s4 };
    match s3.current {
        None => {
            assert(s4 == s3);
            // the CPU only idles while every job is finished or future
            assert forall|i: int| 0 <= i < sf.jobs.len() implies (
            #[trigger] sf.jobs[i]).remaining == 0 || sf.jobs[i].arrival >= sf.tick || (
            sf.timeline.len() > 0 && last_end(sf) == sf.tick) by {
                let iu = i as usize;
                assert(identity_order(s3.jobs.len() as nat)[i] == iu);
                assert(identity_order(s3.jobs.len() as nat).contains(iu));
                assert(s3.order.to_multiset().count(iu) > 0);
                assert(s3.order.contains(iu));
                let k = choose|k: int| 0 <= k < s3.order.len() && s3.order[k] == iu;
                if k < s3.arrived {
                    assert(in_admitted(s3, iu));
                    assert(!s3.queue.contains(iu));
                    assert(is_finished(s3, s3.order[k]));
                    assert(s3.jobs[i].remaining == 0);
                } else {
                    assert(s3.finished == s3.arrived);
                    assert(s3.arrived < s3.order.len());
                    assert(s3.jobs[s3.order[s3.arrived] as int].arrival > s3.tick);
                    assert(s3.jobs[s3.order[s3.arrived] as int].arrival <= s3.jobs[s3.order[k]
                        as int].arrival);
                    assert(s3.jobs[i].arrival >= s3.tick + 1);
                }
            }
        },
        Some(c) => {
            let ci = c as int;
            let j0 = s3.jobs[ci];
            assert(j0.remaining >= 1);
            let jobs1 = s3.jobs.update(
                ci,
                JobView { remaining: j0.remaining - 1, ..j0 },
            );
            if jobs1[ci].remaining == 0 {
                let seg = match alg {
                    Algorithm::ShortestJobNext => SegI {
                        job: c,
                        start: s3.tick + 1 - jobs1[ci].needed,
                        end: s3.tick + 1,
                    },
                    _ => SegI { job: c, start: s3.seg_start, end: s3.tick + 1 },
                };
                if alg is ShortestJobNext {
                    assert(j0.needed - j0.remaining == s3.tick - s3.seg_start);
                    assert(seg.start == s3.seg_start);
                } else {
                    assert(seg.start == s3.seg_start);
                }
                assert(sf.timeline == s3.timeline.push(seg));
                assert(last_end(sf) == s3.tick + 1);
                assert(seg.start >= last_end(s3));
                // old holes stay accounted for; a new hole before the
                // closing segment was opened by an idle-spell dispatch
                assert forall|a: int|
                    0 <= a < sf.timeline.len() - 1 && (#[trigger] sf.timeline[a]).end
                        < sf.timeline[a + 1].start implies gap_clear(
                    sf.jobs,
                    sf.timeline[a].end,
                    sf.timeline[a + 1].start,
                ) by {
                    if a < s3.timeline.len() - 1 {
                        assert(sf.timeline[a] == s3.timeline[a]);
                        assert(sf.timeline[a + 1] == s3.timeline[a + 1]);
                        assert(gap_clear(s3.jobs, s3.timeline[a].end, s3.timeline[a + 1].start));
                        assert forall|i: int| 0 <= i < sf.jobs.len() implies ((
                        #[trigger] sf.jobs[i]).remaining == 0 && sf.jobs[i].completion
                            <= sf.timeline[a].end) || sf.jobs[i].arrival >= sf.timeline[a
                            + 1].start by {
                            if i != ci {
                                assert(sf.jobs[i] == s3.jobs[i]);
                            } else {
                                assert(s3.jobs[i].remaining >= 1);
                                assert(s3.jobs[i].arrival >= s3.timeline[a + 1].start);
                            }
                        }
                    } else {
                        assert(sf.timeline[a] == s3.timeline.last());
                        assert(sf.timeline[a + 1] == seg);
                        assert(last_end(s3) < seg.start);
                        assert forall|i: int| 0 <= i < sf.jobs.len() implies ((
                        #[trigger] sf.jobs[i]).remaining == 0 && sf.jobs[i].completion
                            <= sf.timeline[a].end) || sf.jobs[i].arrival >= sf.timeline[a
                            + 1].start by {
                            assert(s3.jobs[i].remaining == 0 || s3.jobs[i].arrival
                                >= s3.seg_start);
                            if i != ci {
                                assert(sf.jobs[i] == s3.jobs[i]);
                            }
                        }
                    }
                }
                assert forall|i: int|
                    0 <= i < sf.jobs.len() && (#[trigger] sf.jobs[i]).remaining == 0 implies
                    sf.timeline.len() > 0 && sf.jobs[i].completion <= last_end(sf) by {
                    if i != ci {
                        assert(sf.jobs[i] == s3.jobs[i]);
                        assert(s3.jobs[i].completion <= last_end(s3));
                        assert(last_end(s3) <= last_end(sf));
                    }
                }
            } else {
                assert(s4 == SimState { jobs: jobs1, ..s3 });
                assert(jobs1[ci].remaining >= 1);
                assert forall|a: int|
                    0 <= a < sf.timeline.len() - 1 && (#[trigger] sf.timeline[a]).end
                        < sf.timeline[a + 1].start implies gap_clear(
                    sf.jobs,
                    sf.timeline[a].end,
                    sf.timeline[a + 1].start,
                ) by {
                    assert(gap_clear(s3.jobs, s3.timeline[a].end, s3.timeline[a + 1].start));
                    assert forall|i: int| 0 <= i < sf.jobs.len() implies ((
                    #[trigger] sf.jobs[i]).remaining == 0 && sf.jobs[i].completion
                        <= sf.timeline[a].end) || sf.jobs[i].arrival >= sf.timeline[a + 1].start by {
                        if i != ci {
                            assert(sf.jobs[i] == s3.jobs[i]);
                        } else {
                            assert(s3.jobs[i].remaining >= 1);
                            assert(s3.jobs[i].arrival >= s3.timeline[a + 1].start);
                        }
                    }
                }
                assert forall|i: int|
                    0 <= i < sf.jobs.len() && (#[trigger] sf.jobs[i]).remaining == 0 implies
                    sf.timeline.len() > 0 && sf.jobs[i].completion <= last_end(sf) by {
                    assert(i != ci);
                    assert(sf.jobs[i] == s3.jobs[i]);
                }
                if sf.timeline.len() == 0 || last_end(sf) < sf.seg_start {
                    assert forall|i: int| 0 <= i < sf.jobs.len() implies (
                    #[trigger] sf.jobs[i]).remaining == 0 || sf.jobs[i].arrival
                        >= sf.seg_start by {
                        if i != ci {
                            assert(sf.jobs[i] == s3.jobs[i]);
                        } else {
                            assert(s3.jobs[i].remaining >= 1);
                        }
                    }
                }
            }
        },
    }
}

/// Every state of a run over positive bursts keeps the gap-freeness
/// invariant; in particular the finished state does.
pub proof fn lemma_run_gaps(alg: Algorithm, s: SimState, jobs0: Seq<JobView>, bound: int)
    requires
        inv(alg, s, jobs0),
        inv_gaps(s),
        all_positive(jobs0),
        s.jobs.len() <= usize::MAX,
        tick_driven(alg),
    ensures
        run(alg, s, bound) matches Ok(f) ==> inv_gaps(f),
    decreases bound + 1 - s.tick,
{
    if s.finished >= s.order.len() {
    } else {
        let s2 = step(alg, s);
        lemma_step_inv(alg, s, jobs0);
        lemma_step_gaps(alg, s, jobs0);
        if s2.tick <= bound {
            lemma_run_gaps(alg, s2, jobs0, bound);
        }
    }
}

} // verus!
