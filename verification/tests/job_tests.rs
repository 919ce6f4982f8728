use process_scheduling_simulator::{
    job_builder, randomize_jobs, randomize_jobs_seeded, return_job_name, simulate, Algorithm,
    CPUStatus, Job,
};

fn job(name: &str, arrival: u32, needed: u32) -> Job {
    Job {
        job_name: name.to_string(),
        arrival_time: arrival,
        needed_cpu_cycle: needed,
        remaining_cpu_cycle: needed,
        completion_time: 0,
        turnaround_time: 0,
    }
}

#[test]
fn job_names_follow_the_base26_scheme() {
    assert_eq!(return_job_name(0), "A");
    assert_eq!(return_job_name(1), "B");
    assert_eq!(return_job_name(25), "Z");
    assert_eq!(return_job_name(26), "AA");
    assert_eq!(return_job_name(27), "AB");
    assert_eq!(return_job_name(51), "AZ");
    assert_eq!(return_job_name(52), "BA");
    assert_eq!(return_job_name(701), "ZZ");
    assert_eq!(return_job_name(702), "AAA");
}

#[test]
fn job_builder_grows_with_zero_valued_jobs() {
    let jobs = job_builder(&Vec::new(), 3);
    assert_eq!(jobs.len(), 3);
    assert_eq!(jobs[0].job_name, "A");
    assert_eq!(jobs[1].job_name, "B");
    assert_eq!(jobs[2].job_name, "C");
    for j in &jobs {
        assert_eq!(j.arrival_time, 0);
        assert_eq!(j.needed_cpu_cycle, 0);
        assert_eq!(j.remaining_cpu_cycle, 0);
        assert_eq!(j.completion_time, 0);
        assert_eq!(j.turnaround_time, 0);
    }
}

#[test]
fn job_builder_keeps_existing_fields_and_renames() {
    let old = vec![job("X", 4, 7), job("Y", 1, 2)];
    let jobs = job_builder(&old, 3);
    assert_eq!(jobs.len(), 3);
    assert_eq!(jobs[0].job_name, "A");
    assert_eq!(jobs[0].arrival_time, 4);
    assert_eq!(jobs[0].needed_cpu_cycle, 7);
    assert_eq!(jobs[1].job_name, "B");
    assert_eq!(jobs[1].arrival_time, 1);
    assert_eq!(jobs[1].needed_cpu_cycle, 2);
    assert_eq!(jobs[2].job_name, "C");
    assert_eq!(jobs[2].needed_cpu_cycle, 0);
}

#[test]
fn job_builder_shrinks_from_the_tail() {
    let old = vec![job("A", 1, 1), job("B", 2, 2), job("C", 3, 3)];
    let jobs = job_builder(&old, 1);
    assert_eq!(jobs.len(), 1);
    assert_eq!(jobs[0].job_name, "A");
    assert_eq!(jobs[0].arrival_time, 1);
}

#[test]
fn randomize_jobs_keeps_names_and_stays_in_range() {
    let jobs = vec![job("A", 99, 99), job("B", 99, 99), job("C", 99, 99)];
    let out = randomize_jobs(jobs);
    assert_eq!(out.len(), 3);
    assert_eq!(out[0].job_name, "A");
    assert_eq!(out[1].job_name, "B");
    assert_eq!(out[2].job_name, "C");
    for j in &out {
        assert!(j.arrival_time < 10);
        assert!(j.needed_cpu_cycle >= 1 && j.needed_cpu_cycle < 10);
    }
}

#[test]
fn random_order_chains_segments_in_arrival_order() {
    let jobs = vec![job("A", 3, 5), job("B", 1, 5), job("C", 2, 5)];
    let (returned, timeline) = simulate(Algorithm::RandomOrder, jobs).unwrap();
    assert_eq!(timeline.len(), 3);
    assert_eq!(timeline[0].0, "B");
    assert_eq!(timeline[1].0, "C");
    assert_eq!(timeline[2].0, "A");
    assert_eq!(timeline[0].1, 0);
    for w in timeline.windows(2) {
        assert_eq!(w[1].1, w[0].2);
    }
    for seg in &timeline {
        assert!(seg.2 - seg.1 <= 4);
    }
    assert_eq!(returned.len(), 3);
    assert_eq!(returned[0].job_name, "A");
    for j in &returned {
        assert!(j.arrival_time < 10);
        assert!(j.needed_cpu_cycle >= 1 && j.needed_cpu_cycle < 10);
        assert_eq!(j.remaining_cpu_cycle, j.needed_cpu_cycle);
        assert_eq!(j.completion_time, 0);
        assert_eq!(j.turnaround_time, 0);
    }
}

#[test]
fn seeded_randomization_is_reproducible() {
    let jobs = vec![job("A", 0, 1), job("B", 0, 1), job("C", 0, 1), job("D", 0, 1)];
    let first = randomize_jobs_seeded(jobs.clone(), 42);
    let second = randomize_jobs_seeded(jobs, 42);
    assert_eq!(first, second);
    for j in &first {
        assert!(j.arrival_time < 10);
        assert!(j.needed_cpu_cycle >= 1 && j.needed_cpu_cycle < 10);
    }
    assert_eq!(first[0].job_name, "A");
    assert_eq!(first[3].job_name, "D");
}

#[test]
fn cpu_status_values_are_distinct() {
    assert_ne!(CPUStatus::Working, CPUStatus::Idle);
    assert_eq!(CPUStatus::Idle, CPUStatus::Idle);
}
