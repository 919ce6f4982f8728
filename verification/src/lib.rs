//! A verified CPU process-scheduling simulator.
//!
//! The library models a synthetic workload of jobs and simulates how a
//! single CPU serves them under several textbook scheduling policies
//! (first-come-first-serve, shortest-job-next, shortest-remaining-time and
//! round-robin, plus a randomized demonstration mode), producing an
//! execution timeline and per-job completion metrics.

pub mod engine;
pub mod gaps;
pub mod job;
pub mod laws;
pub mod props;
mod rng;
pub mod scheduler;
pub mod sim;
pub mod sort;
mod strings;

pub use job::{job_builder, randomize_jobs, randomize_jobs_seeded, return_job_name, CPUStatus, Job};
pub use scheduler::{algorithm_of, fits_limits, process_scheduler, simulate, total_turnaround_time};
pub use sim::{Algorithm, SchedulerError};
