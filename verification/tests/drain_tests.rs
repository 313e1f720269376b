//! The draining engine: chunking, retries, resume, and failure filtering.

use griddy::drain::assign_job_ids;
use griddy::drain::filter_failed;
use griddy::drain::Drain;
use griddy::drain::DrainConfig;
use griddy::drain::Job;
use griddy::drain::JobState;

fn cfg(chunk_size: usize, job_limit: usize, max_retries: usize, resume: bool) -> DrainConfig {
    DrainConfig { chunk_size, job_limit, max_retries, resume }
}

#[test]
fn job_ids_are_dense_and_offset() {
    let jobs = assign_job_ids(4, 10);
    let ids: Vec<usize> = jobs.iter().map(|j| j.id).collect();
    assert_eq!(ids, vec![10, 11, 12, 13]);
}

#[test]
fn chunking_respects_chunk_size_and_job_limit() {
    let jobs = assign_job_ids(5, 0);
    let mut d = Drain::new(jobs, 5, cfg(2, 3, 0, false));
    let c1 = d.take_chunk();
    assert_eq!(c1, vec![0, 1]);
    let c2 = d.take_chunk();
    // The cap of three outstanding jobs leaves room for only one more.
    assert_eq!(c2, vec![2]);
    let c3 = d.take_chunk();
    assert!(c3.is_empty());
    d.record_success(0, 77);
    let c4 = d.take_chunk();
    assert_eq!(c4, vec![3]);
}

#[test]
fn results_are_matched_by_id_not_completion_order() {
    let jobs = vec![Job { id: 2 }, Job { id: 0 }, Job { id: 1 }];
    let mut d = Drain::new(jobs, 3, cfg(3, 3, 0, false));
    let c = d.take_chunk();
    assert_eq!(c, vec![0, 1, 2]);
    // Completion arrives out of submission order.
    d.record_success(2, 300);
    d.record_success(0, 100);
    d.record_success(1, 200);
    assert!(d.is_finished());
    let (energies, failed) = d.drain_result();
    assert_eq!(energies, vec![200, 300, 100]);
    assert!(failed.is_empty());
}

#[test]
fn scenario_transient_failure_retried_and_recovered() {
    // One transient failure, then success on the retry within the bounded
    // retry count: the final energy is the retry's value and the job is
    // never reported as failed.
    let jobs = assign_job_ids(2, 0);
    let mut d = Drain::new(jobs, 2, cfg(2, 2, 1, false));
    let c = d.take_chunk();
    assert_eq!(c, vec![0, 1]);
    d.record_success(0, 11);
    d.record_failure(1);
    assert!(matches!(d.state[1], JobState::Pending));
    let c2 = d.take_chunk();
    assert_eq!(c2, vec![1]);
    d.record_success(1, 22);
    assert!(d.is_finished());
    match d.energize_result() {
        Ok(energies) => assert_eq!(energies, vec![11, 22]),
        Err(_) => panic!("no job may be reported failed"),
    }
}

#[test]
fn exhausted_retries_mark_the_job_failed() {
    let jobs = assign_job_ids(2, 0);
    let mut d = Drain::new(jobs, 2, cfg(2, 2, 1, false));
    let c = d.take_chunk();
    assert_eq!(c, vec![0, 1]);
    d.record_success(0, 5);
    d.record_failure(1);
    let c2 = d.take_chunk();
    assert_eq!(c2, vec![1]);
    d.record_failure(1);
    assert!(matches!(d.state[1], JobState::Failed));
    assert!(d.is_finished());
    let failed = d.failed_ids();
    assert_eq!(failed, vec![1]);
    match d.energize_result() {
        Ok(_) => panic!("a failed job must abort a strict run"),
        Err(f) => assert_eq!(f, vec![1]),
    }
}

#[test]
fn scenario_resume_is_idempotent() {
    // A directory with complete outputs: every job is revived from its
    // checkpointed energy, nothing is submitted, and a second pass over
    // the same outputs reproduces identical energies.
    let jobs = assign_job_ids(3, 0);
    let mut d = Drain::new(jobs, 3, cfg(2, 4, 0, true));
    let found = vec![Some(7u64), Some(8u64), Some(9u64)];
    d.resume_scan(&found);
    assert!(d.take_chunk().is_empty());
    assert_eq!(d.energies, vec![7, 8, 9]);
    d.resume_scan(&found);
    assert_eq!(d.energies, vec![7, 8, 9]);
    assert!(d.is_finished());
    let (energies, failed) = d.drain_result();
    assert_eq!(energies, vec![7, 8, 9]);
    assert!(failed.is_empty());
}

#[test]
fn resume_disabled_ignores_existing_outputs() {
    let jobs = assign_job_ids(2, 0);
    let mut d = Drain::new(jobs, 2, cfg(2, 2, 0, false));
    let found = vec![Some(7u64), None];
    d.resume_scan(&found);
    assert!(matches!(d.state[0], JobState::Pending));
    assert_eq!(d.energies, vec![0, 0]);
    let c = d.take_chunk();
    assert_eq!(c, vec![0, 1]);
}

#[test]
fn partial_resume_only_revives_found_outputs() {
    let jobs = assign_job_ids(3, 0);
    let mut d = Drain::new(jobs, 3, cfg(3, 3, 0, true));
    let found = vec![Some(4u64), None, Some(6u64)];
    d.resume_scan(&found);
    assert!(matches!(d.state[0], JobState::Done));
    assert!(matches!(d.state[1], JobState::Pending));
    assert!(matches!(d.state[2], JobState::Done));
    let c = d.take_chunk();
    assert_eq!(c, vec![1]);
    d.record_success(1, 5);
    assert!(d.is_finished());
    let (energies, _) = d.drain_result();
    assert_eq!(energies, vec![4, 5, 6]);
}

#[test]
fn filtering_failed_indices_keeps_parallel_arrays_aligned() {
    // P4 on concrete data: the surviving positions of two parallel arrays
    // still describe the same original job.
    let results = vec!["r0", "r1", "r2", "r3", "r4"];
    let meta = vec![100, 101, 102, 103, 104];
    let failed = vec![1usize, 3usize];
    let kept_results = filter_failed(results, &failed);
    let kept_meta = filter_failed(meta, &failed);
    assert_eq!(kept_results, vec!["r0", "r2", "r4"]);
    assert_eq!(kept_meta, vec![100, 102, 104]);
    assert_eq!(kept_results.len(), kept_meta.len());
    for k in 0..kept_results.len() {
        let orig: usize = kept_meta[k] - 100;
        assert_eq!(kept_results[k], format!("r{}", orig));
        assert!(!failed.contains(&orig));
    }
}

#[test]
fn filtering_with_no_failures_keeps_everything() {
    let xs = vec![1, 2, 3];
    let out = filter_failed(xs.clone(), &[]);
    assert_eq!(out, xs);
}

#[test]
fn failed_jobs_filter_out_of_every_parallel_array() {
    // The tolerant flow end to end: one job exhausts its retries, its id is
    // reported, and filtering both parallel arrays by the failed set keeps
    // the survivors describing the same jobs.
    let jobs = assign_job_ids(3, 0);
    let mut d = Drain::new(jobs, 3, cfg(3, 3, 0, false));
    let c = d.take_chunk();
    assert_eq!(c, vec![0, 1, 2]);
    d.record_success(0, 10);
    d.record_failure(1);
    d.record_success(2, 30);
    assert!(d.is_finished());
    let (energies, failed) = d.drain_result();
    assert_eq!(failed, vec![1]);
    let labels = vec!["job0", "job1", "job2"];
    let kept_energies = filter_failed(energies, &failed);
    let kept_labels = filter_failed(labels, &failed);
    assert_eq!(kept_energies, vec![10, 30]);
    assert_eq!(kept_labels, vec!["job0", "job2"]);
}
