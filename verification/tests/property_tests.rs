use process_scheduling_simulator::{
    algorithm_of, fits_limits, process_scheduler, simulate, total_turnaround_time, Algorithm, Job,
};

fn job(name: &str, arrival: u32, needed: u32) -> Job {
    Job {
        job_name: name.to_string(),
        arrival_time: arrival,
        needed_cpu_cycle: needed,
        remaining_cpu_cycle: needed,
        completion_time: 0,
        turnaround_time: 0,
    }
}

fn workload() -> Vec<Job> {
    vec![job("A", 0, 6), job("B", 1, 3), job("C", 2, 1), job("D", 3, 4)]
}

fn service_of(timeline: &[(String, u32, u32)], name: &str) -> u32 {
    let mut total: u32 = 0;
    for (n, s, e) in timeline {
        if n == name {
            total += e - s;
        }
    }
    total
}

#[test]
fn service_is_conserved_under_every_algorithm() {
    let names = [
        "First Come First Serve (FCFS)",
        "Shortest Job Next (SJN)",
        "Shortest Remaining Time (SRT)",
        "Round Robin",
    ];
    for alg in names {
        let (_, timeline) = process_scheduler(alg.to_string(), workload(), 2).unwrap();
        assert_eq!(service_of(&timeline, "A"), 6, "algorithm {}", alg);
        assert_eq!(service_of(&timeline, "B"), 3, "algorithm {}", alg);
        assert_eq!(service_of(&timeline, "C"), 1, "algorithm {}", alg);
        assert_eq!(service_of(&timeline, "D"), 4, "algorithm {}", alg);
    }
}

#[test]
fn segments_are_ordered_and_nonoverlapping() {
    let names = [
        "Shortest Job Next (SJN)",
        "Shortest Remaining Time (SRT)",
        "Round Robin",
    ];
    for alg in names {
        let (_, timeline) = process_scheduler(alg.to_string(), workload(), 3).unwrap();
        for w in timeline.windows(2) {
            assert!(w[0].2 <= w[1].1, "algorithm {}", alg);
        }
        for seg in &timeline {
            assert!(seg.1 <= seg.2);
        }
    }
}

#[test]
fn completion_is_no_earlier_than_arrival_plus_service() {
    let names = [
        "Shortest Job Next (SJN)",
        "Shortest Remaining Time (SRT)",
        "Round Robin",
    ];
    for alg in names {
        let (returned, _) = process_scheduler(alg.to_string(), workload(), 3).unwrap();
        for j in &returned {
            assert!(
                j.completion_time >= j.arrival_time + j.needed_cpu_cycle,
                "algorithm {}",
                alg
            );
            assert_eq!(j.turnaround_time, j.completion_time - j.arrival_time);
        }
    }
}

#[test]
fn deterministic_runs_are_repeatable() {
    let names = [
        "First Come First Serve (FCFS)",
        "Shortest Job Next (SJN)",
        "Shortest Remaining Time (SRT)",
        "Round Robin",
    ];
    for alg in names {
        let first = process_scheduler(alg.to_string(), workload(), 4).unwrap();
        let second = process_scheduler(alg.to_string(), workload(), 4).unwrap();
        assert_eq!(first, second, "algorithm {}", alg);
    }
}

#[test]
fn srt_metrics_match_the_worked_scenario() {
    let (returned, _) = process_scheduler("Shortest Remaining Time (SRT)".to_string(), workload(), 0)
        .unwrap();
    assert_eq!(returned[0].completion_time, 14);
    assert_eq!(returned[0].turnaround_time, 14);
    assert_eq!(returned[1].completion_time, 5);
    assert_eq!(returned[1].turnaround_time, 4);
    assert_eq!(returned[2].completion_time, 3);
    assert_eq!(returned[2].turnaround_time, 1);
    assert_eq!(returned[3].completion_time, 9);
    assert_eq!(returned[3].turnaround_time, 6);
    assert_eq!(total_turnaround_time(&returned), 25);
}

#[test]
fn total_turnaround_of_no_jobs_is_zero() {
    assert_eq!(total_turnaround_time(&Vec::new()), 0);
}

#[test]
fn simulate_takes_the_algorithm_directly() {
    let (_, timeline) = simulate(Algorithm::ShortestJobNext, workload()).unwrap();
    assert_eq!(
        timeline,
        [
            ("A".to_string(), 0, 6),
            ("C".to_string(), 6, 7),
            ("B".to_string(), 7, 10),
            ("D".to_string(), 10, 14),
        ]
    );
}

#[test]
fn algorithm_names_select_their_policies() {
    assert_eq!(
        algorithm_of(&"Random".to_string(), 0),
        Some(Algorithm::RandomOrder)
    );
    assert_eq!(
        algorithm_of(&"First Come First Serve (FCFS)".to_string(), 0),
        Some(Algorithm::FirstComeFirstServe)
    );
    assert_eq!(
        algorithm_of(&"Shortest Job Next (SJN)".to_string(), 0),
        Some(Algorithm::ShortestJobNext)
    );
    assert_eq!(
        algorithm_of(&"Shortest Remaining Time (SRT)".to_string(), 0),
        Some(Algorithm::ShortestRemainingTime)
    );
    assert_eq!(
        algorithm_of(&"Round Robin".to_string(), 7),
        Some(Algorithm::RoundRobin { time_quantum: 7 })
    );
    assert_eq!(algorithm_of(&"round robin".to_string(), 7), None);
}

#[test]
fn fits_limits_rejects_oversized_job_sets() {
    let small = workload();
    assert!(fits_limits(Algorithm::ShortestJobNext, &small));
    let huge = vec![job("A", 0, 0x8000_0000), job("B", 0, 0x8000_0000)];
    assert!(!fits_limits(Algorithm::ShortestJobNext, &huge));
    assert!(fits_limits(Algorithm::RandomOrder, &huge));
}

#[test]
fn round_robin_quantum_one_alternates() {
    let jobs = vec![job("A", 0, 2), job("B", 0, 2)];
    let (_, timeline) = simulate(Algorithm::RoundRobin { time_quantum: 1 }, jobs).unwrap();
    assert_eq!(
        timeline,
        [
            ("A".to_string(), 0, 1),
            ("B".to_string(), 1, 2),
            ("A".to_string(), 2, 3),
            ("B".to_string(), 3, 4),
        ]
    );
}
