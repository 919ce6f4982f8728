//! The job data model: the unit of work that the scheduling engine operates
//! on, together with the deterministic base-26 naming scheme and the
//! workload-preparation helpers (`job_builder`, `randomize_jobs`).

use vstd::prelude::*;

use crate::rng::{rand_in_range, rand_in_range_from, seeded_rng};

verus! {

/// Whether the simulated CPU is currently serving a job.
#[derive(Clone, Copy, Debug, PartialEq, Eq, Structural)]
pub enum CPUStatus {
    Working,
    Idle,
}

/// One process to be scheduled.
///
/// `job_name` identifies the job; `arrival_time` and `needed_cpu_cycle` are
/// inputs to the engine (read-only there), `remaining_cpu_cycle` is the
/// engine's mutable service counter, and `completion_time` /
/// `turnaround_time` are outputs of a finished simulation run.
#[derive(Clone, Debug, PartialEq)]
pub struct Job {
    pub job_name: String,
    pub arrival_time: u32,
    pub needed_cpu_cycle: u32,
    pub remaining_cpu_cycle: u32,
    pub completion_time: u32,
    pub turnaround_time: u32,
}

/// The mathematical value of a [`Job`].
pub struct JobView {
    pub name: Seq<char>,
    pub arrival: int,
    pub needed: int,
    pub remaining: int,
    pub completion: int,
    pub turnaround: int,
}

impl View for Job {
    type V = JobView;

    open spec fn view(&self) -> JobView {
        JobView {
            name: self.job_name@,
            arrival: self.arrival_time as int,
            needed: self.needed_cpu_cycle as int,
            remaining: self.remaining_cpu_cycle as int,
            completion: self.completion_time as int,
            turnaround: self.turnaround_time as int,
        }
    }
}

/// The views of a sequence of jobs.
pub open spec fn jobs_view(s: Seq<Job>) -> Seq<JobView> {
    s.map_values(|j: Job| j@)
}

/// The letter used for one base-26 digit: 0 is `A`, 25 is `Z`.
pub open spec fn name_letter(d: int) -> char
    recommends
        0 <= d < 26,
{
    ((65 + d) as u8) as char
}

/// The base-26, letters-only name of job number `n`, counted from 1:
/// 1 is `A`, 26 is `Z`, 27 is `AA`, and so on.
pub open spec fn spec_job_name(n: nat) -> Seq<char>
    decreases n,
{
    if n == 0 {
        Seq::empty()
    } else {
        spec_job_name((((n - 1) as int) / 26) as nat).push(name_letter(((n - 1) as int) % 26))
    }
}

/// The name assigned to the job at position `i` of a job set: the base-26
/// name of `i + 1`.
pub fn return_job_name(i: usize) -> (name: String)
    requires
        i < usize::MAX,
    ensures
        name@ == spec_job_name((i + 1) as nat),
{
    let ghost n0: nat = (i + 1) as nat;
    let mut n: usize = i + 1;
    let mut digits: Vec<char> = Vec::new();
    while n > 0
        invariant
            spec_job_name(n as nat) + digits@ == spec_job_name(n0),
        decreases n,
    {
        let rem: usize = (n - 1) % 26;
        let c: char = ((65 + rem) as u8) as char;
        digits.insert(0, c);
        proof {
            assert(spec_job_name(n as nat)
                == spec_job_name((((n - 1) as int) / 26) as nat).push(name_letter((n - 1) as int % 26)));
            assert(c == name_letter((n - 1) as int % 26));
            assert(spec_job_name((((n - 1) as int) / 26) as nat) + digits@
                =~= spec_job_name(n0));
        }
        n = (n - 1) / 26;
    }
    proof {
        assert(digits@ =~= spec_job_name(n0));
    }
    let mut name = String::new();
    let mut j: usize = 0;
    while j < digits.len()
        invariant
            j <= digits@.len(),
            name@ == digits@.take(j as int),
        decreases digits@.len() - j,
    {
        crate::strings::push_char(&mut name, digits[j]);
        proof {
            assert(digits@.take(j + 1) =~= digits@.take(j as int).push(digits@[j as int]));
        }
        j = j + 1;
    }
    proof {
        assert(digits@.take(digits@.len() as int) =~= digits@);
    }
    name
}

/// The job that `job_builder` places at position `i`, given the previous
/// job set: a renamed copy of the previous job at `i` when one exists,
/// otherwise a fresh zero-valued job.
pub open spec fn spec_built_job(old: Seq<JobView>, i: int) -> JobView {
    if 0 <= i < old.len() {
        JobView { name: spec_job_name((i + 1) as nat), ..old[i] }
    } else {
        JobView {
            name: spec_job_name((i + 1) as nat),
            arrival: 0,
            needed: 0,
            remaining: 0,
            completion: 0,
            turnaround: 0,
        }
    }
}

/// Produces an ordered set of `job_count` jobs, reassigning the canonical
/// base-26 names by position while keeping the other fields of as many of
/// the previous jobs as still fit: growing appends zero-valued jobs,
/// shrinking drops jobs from the tail.
pub fn job_builder(old_jobs: &Vec<Job>, job_count: u32) -> (jobs: Vec<Job>)
    ensures
        jobs@.len() == job_count,
        forall|i: int|
            0 <= i < job_count ==> #[trigger] jobs@[i]@ == spec_built_job(jobs_view(old_jobs@), i),
{
    let count = job_count as usize;
    let mut jobs: Vec<Job> = Vec::new();
    let mut i: usize = 0;
    while i < count
        invariant
            i <= count,
            count == job_count,
            jobs@.len() == i,
            forall|k: int|
                0 <= k < i ==> #[trigger] jobs@[k]@ == spec_built_job(jobs_view(old_jobs@), k),
        decreases count - i,
    {
        let job = if i < old_jobs.len() {
            Job {
                job_name: return_job_name(i),
                arrival_time: old_jobs[i].arrival_time,
                needed_cpu_cycle: old_jobs[i].needed_cpu_cycle,
                remaining_cpu_cycle: old_jobs[i].remaining_cpu_cycle,
                completion_time: old_jobs[i].completion_time,
                turnaround_time: old_jobs[i].turnaround_time,
            }
        } else {
            Job {
                job_name: return_job_name(i),
                arrival_time: 0,
                needed_cpu_cycle: 0,
                remaining_cpu_cycle: 0,
                completion_time: 0,
                turnaround_time: 0,
            }
        };
        jobs.push(job);
        i = i + 1;
    }
    jobs
}

/// Resets each job's arrival time to a fresh value in `[0, 10)` and its
/// required CPU time to a fresh value in `[1, 10)`, leaving the name and
/// the remaining fields unchanged.
pub fn randomize_jobs(jobs: Vec<Job>) -> (out: Vec<Job>)
    ensures
        out@.len() == jobs@.len(),
        forall|i: int| 0 <= i < jobs@.len() ==> (#[trigger] out@[i]@).name == jobs@[i]@.name,
        forall|i: int| 0 <= i < jobs@.len() ==> 0 <= (#[trigger] out@[i]@).arrival < 10,
        forall|i: int| 0 <= i < jobs@.len() ==> 1 <= (#[trigger] out@[i]@).needed < 10,
        forall|i: int|
            0 <= i < jobs@.len() ==> (#[trigger] out@[i]@).remaining == jobs@[i]@.remaining
                && out@[i]@.completion == jobs@[i]@.completion && out@[i]@.turnaround
                == jobs@[i]@.turnaround,
{
    let mut out: Vec<Job> = Vec::new();
    let mut i: usize = 0;
    while i < jobs.len()
        invariant
            i <= jobs@.len(),
            out@.len() == i,
            forall|k: int| 0 <= k < i ==> (#[trigger] out@[k]@).name == jobs@[k]@.name,
            forall|k: int| 0 <= k < i ==> 0 <= (#[trigger] out@[k]@).arrival < 10,
            forall|k: int| 0 <= k < i ==> 1 <= (#[trigger] out@[k]@).needed < 10,
            forall|k: int|
                0 <= k < i ==> (#[trigger] out@[k]@).remaining == jobs@[k]@.remaining
                    && out@[k]@.completion == jobs@[k]@.completion && out@[k]@.turnaround
                    == jobs@[k]@.turnaround,
        decreases jobs@.len() - i,
    {
        let job = Job {
            job_name: jobs[i].job_name.clone(),
            arrival_time: rand_in_range(0, 10),
            needed_cpu_cycle: rand_in_range(1, 10),
            remaining_cpu_cycle: jobs[i].remaining_cpu_cycle,
            completion_time: jobs[i].completion_time,
            turnaround_time: jobs[i].turnaround_time,
        };
        out.push(job);
        i = i + 1;
    }
    out
}

/// Like [`randomize_jobs`], but drawing from a generator seeded with the
/// given value, so that the same seed reproduces the same job set.
pub fn randomize_jobs_seeded(jobs: Vec<Job>, seed: u64) -> (out: Vec<Job>)
    ensures
        out@.len() == jobs@.len(),
        forall|i: int| 0 <= i < jobs@.len() ==> (#[trigger] out@[i]@).name == jobs@[i]@.name,
        forall|i: int| 0 <= i < jobs@.len() ==> 0 <= (#[trigger] out@[i]@).arrival < 10,
        forall|i: int| 0 <= i < jobs@.len() ==> 1 <= (#[trigger] out@[i]@).needed < 10,
        forall|i: int|
            0 <= i < jobs@.len() ==> (#[trigger] out@[i]@).remaining == jobs@[i]@.remaining
                && out@[i]@.completion == jobs@[i]@.completion && out@[i]@.turnaround
                == jobs@[i]@.turnaround,
{
    let mut rng = seeded_rng(seed);
    let mut out: Vec<Job> = Vec::new();
    let mut i: usize = 0;
    while i < jobs.len()
        invariant
            i <= jobs@.len(),
            out@.len() == i,
            forall|k: int| 0 <= k < i ==> (#[trigger] out@[k]@).name == jobs@[k]@.name,
            forall|k: int| 0 <= k < i ==> 0 <= (#[trigger] out@[k]@).arrival < 10,
            forall|k: int| 0 <= k < i ==> 1 <= (#[trigger] out@[k]@).needed < 10,
            forall|k: int|
                0 <= k < i ==> (#[trigger] out@[k]@).remaining == jobs@[k]@.remaining
                    && out@[k]@.completion == jobs@[k]@.completion && out@[k]@.turnaround
                    == jobs@[k]@.turnaround,
        decreases jobs@.len() - i,
    {
        let job = Job {
            job_name: jobs[i].job_name.clone(),
            arrival_time: rand_in_range_from(&mut rng, 0, 10),
            needed_cpu_cycle: rand_in_range_from(&mut rng, 1, 10),
            remaining_cpu_cycle: jobs[i].remaining_cpu_cycle,
            completion_time: jobs[i].completion_time,
            turnaround_time: jobs[i].turnaround_time,
        };
        out.push(job);
        i = i + 1;
    }
    out
}

} // verus!
