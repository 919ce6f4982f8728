use process_scheduling_simulator::{process_scheduler, Job, SchedulerError};

fn job(name: &str, arrival: u32, needed: u32) -> Job {
    Job {
        job_name: name.to_string(),
        arrival_time: arrival,
        needed_cpu_cycle: needed,
        remaining_cpu_cycle: needed,
        completion_time: 0,
        turnaround_time: 0,
    }
}

#[test]
fn sjn_works() {
    let mut jobs: Vec<Job> = vec![];
    jobs.push(Job {
        job_name: "A".to_string(),
        arrival_time: 0,
        needed_cpu_cycle: 5,
        remaining_cpu_cycle: 5,
        completion_time: 0,
        turnaround_time: 0,
    });
    jobs.push(Job {
        job_name: "B".to_string(),
        arrival_time: 2,
        needed_cpu_cycle: 5,
        remaining_cpu_cycle: 5,
        completion_time: 0,
        turnaround_time: 0,
    });
    jobs.push(Job {
        job_name: "C".to_string(),
        arrival_time: 3,
        needed_cpu_cycle: 3,
        remaining_cpu_cycle: 3,
        completion_time: 0,
        turnaround_time: 0,
    });
    let (_, timeline) = process_scheduler("Shortest Job Next (SJN)".to_string(), jobs, 0).unwrap();
    assert_eq!(
        timeline,
        [
            ("A".to_string(), 0, 5),
            ("C".to_string(), 5, 8),
            ("B".to_string(), 8, 13)
        ]
    )
}

#[test]
fn srt_works() {
    let mut jobs: Vec<Job> = vec![];
    jobs.push(Job {
        job_name: "A".to_string(),
        arrival_time: 0,
        needed_cpu_cycle: 6,
        remaining_cpu_cycle: 6,
        completion_time: 0,
        turnaround_time: 0,
    });
    jobs.push(Job {
        job_name: "B".to_string(),
        arrival_time: 1,
        needed_cpu_cycle: 3,
        remaining_cpu_cycle: 3,
        completion_time: 0,
        turnaround_time: 0,
    });
    jobs.push(Job {
        job_name: "C".to_string(),
        arrival_time: 2,
        needed_cpu_cycle: 1,
        remaining_cpu_cycle: 1,
        completion_time: 0,
        turnaround_time: 0,
    });
    jobs.push(Job {
        job_name: "D".to_string(),
        arrival_time: 3,
        needed_cpu_cycle: 4,
        remaining_cpu_cycle: 4,
        completion_time: 0,
        turnaround_time: 0,
    });
    let (_, timeline) =
        process_scheduler("Shortest Remaining Time (SRT)".to_string(), jobs, 0).unwrap();
    assert_eq!(
        timeline,
        [
            ("A".to_string(), 0, 1),
            ("B".to_string(), 1, 2),
            ("C".to_string(), 2, 3),
            ("B".to_string(), 3, 5),
            ("D".to_string(), 5, 9),
            ("A".to_string(), 9, 14),
        ]
    )
}

#[test]
fn rr_works() {
    let mut jobs: Vec<Job> = vec![];
    jobs.push(Job {
        job_name: "A".to_string(),
        arrival_time: 0,
        needed_cpu_cycle: 8,
        remaining_cpu_cycle: 8,
        completion_time: 0,
        turnaround_time: 0,
    });
    jobs.push(Job {
        job_name: "B".to_string(),
        arrival_time: 1,
        needed_cpu_cycle: 4,
        remaining_cpu_cycle: 4,
        completion_time: 0,
        turnaround_time: 0,
    });
    jobs.push(Job {
        job_name: "C".to_string(),
        arrival_time: 2,
        needed_cpu_cycle: 9,
        remaining_cpu_cycle: 9,
        completion_time: 0,
        turnaround_time: 0,
    });
    jobs.push(Job {
        job_name: "D".to_string(),
        arrival_time: 3,
        needed_cpu_cycle: 5,
        remaining_cpu_cycle: 5,
        completion_time: 0,
        turnaround_time: 0,
    });
    let (_, timeline) = process_scheduler("Round Robin".to_string(), jobs, 4).unwrap();
    assert_eq!(
        timeline,
        [
            ("A".to_string(), 0, 4),
            ("B".to_string(), 4, 8),
            ("C".to_string(), 8, 12),
            ("D".to_string(), 12, 16),
            ("A".to_string(), 16, 20),
            ("C".to_string(), 20, 24),
            ("D".to_string(), 24, 25),
            ("C".to_string(), 25, 26),
        ]
    )
}

#[test]
fn fcfs_uses_literal_windows() {
    let jobs = vec![job("A", 2, 3), job("B", 0, 4), job("C", 1, 2)];
    let (returned, timeline) =
        process_scheduler("First Come First Serve (FCFS)".to_string(), jobs, 0).unwrap();
    assert_eq!(
        timeline,
        [
            ("B".to_string(), 0, 4),
            ("C".to_string(), 1, 3),
            ("A".to_string(), 2, 5),
        ]
    );
    assert_eq!(returned[0].completion_time, 5);
    assert_eq!(returned[0].turnaround_time, 3);
    assert_eq!(returned[1].completion_time, 4);
    assert_eq!(returned[1].turnaround_time, 4);
    assert_eq!(returned[2].completion_time, 3);
    assert_eq!(returned[2].turnaround_time, 2);
}

#[test]
fn unknown_algorithm_is_refused() {
    let jobs = vec![job("A", 0, 1)];
    let r = process_scheduler("Lottery".to_string(), jobs, 0);
    assert_eq!(r, Err(SchedulerError::UnknownAlgorithm));
}

#[test]
fn round_robin_needs_positive_quantum() {
    let jobs = vec![job("A", 0, 1)];
    let r = process_scheduler("Round Robin".to_string(), jobs, 0);
    assert_eq!(r, Err(SchedulerError::InvalidTimeQuantum));
}

#[test]
fn empty_job_set_yields_empty_timeline() {
    let (returned, timeline) =
        process_scheduler("Shortest Job Next (SJN)".to_string(), Vec::new(), 0).unwrap();
    assert!(returned.is_empty());
    assert!(timeline.is_empty());
}

#[test]
fn late_arrival_waits_for_admission() {
    let jobs = vec![job("A", 5, 2)];
    let (returned, timeline) =
        process_scheduler("Shortest Job Next (SJN)".to_string(), jobs, 0).unwrap();
    assert_eq!(timeline, [("A".to_string(), 5, 7)]);
    assert_eq!(returned[0].completion_time, 7);
    assert_eq!(returned[0].turnaround_time, 2);
}

#[test]
fn sjn_breaks_ties_by_queue_order() {
    let jobs = vec![job("A", 0, 3), job("B", 0, 3)];
    let (_, timeline) = process_scheduler("Shortest Job Next (SJN)".to_string(), jobs, 0).unwrap();
    assert_eq!(
        timeline,
        [("A".to_string(), 0, 3), ("B".to_string(), 3, 6)]
    );
}

#[test]
fn zero_length_burst_trips_the_tick_bound() {
    // A zero-length burst is disallowed by construction in the workload;
    // the tick-driven engine retires it in one tick, which already
    // exceeds the zero expected total time, and reports the internal
    // safety bound instead of crashing.
    let jobs = vec![job("A", 0, 0)];
    let r = process_scheduler("Shortest Job Next (SJN)".to_string(), jobs, 0);
    assert_eq!(r, Err(SchedulerError::TickBoundExceeded));
    // First-come-first-serve has no tick loop and simply records an
    // empty nominal window.
    let jobs = vec![job("A", 2, 0)];
    let (_, timeline) =
        process_scheduler("First Come First Serve (FCFS)".to_string(), jobs, 0).unwrap();
    assert_eq!(timeline, [("A".to_string(), 2, 2)]);
}

#[test]
fn arrival_beyond_total_service_is_handled() {
    let jobs = vec![job("A", 0, 1), job("B", 9, 1)];
    let (returned, timeline) =
        process_scheduler("Shortest Remaining Time (SRT)".to_string(), jobs, 0).unwrap();
    assert_eq!(
        timeline,
        [("A".to_string(), 0, 1), ("B".to_string(), 9, 10)]
    );
    assert_eq!(returned[1].completion_time, 10);
}
