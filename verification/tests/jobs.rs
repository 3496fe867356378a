use rshell::jobs::{get_job_markers, Job, JobTable};

fn job(job_number: u32, pid: u32, status: &str) -> Job {
    Job { job_number, pid, command: format!("cmd {}", pid), status: status.to_string() }
}

#[test]
fn markers_of_the_last_two_jobs() {
    assert!(get_job_markers(&[]).is_empty());
    let one = get_job_markers(&[job(1, 10, "Running")]);
    assert_eq!(one.get(&10), Some(&"+"));
    assert_eq!(one.len(), 1);
    let jobs = [job(1, 10, "Running"), job(2, 20, "Running"), job(3, 30, "Done")];
    let three = get_job_markers(&jobs);
    assert_eq!(three.get(&30), Some(&"+"));
    assert_eq!(three.get(&20), Some(&"-"));
    assert_eq!(three.get(&10), None);
}

#[test]
fn a_process_that_is_both_last_and_next_to_last_gets_a_minus() {
    let markers = get_job_markers(&[job(1, 10, "Done"), job(2, 10, "Running")]);
    assert_eq!(markers.get(&10), Some(&"-"));
    assert_eq!(markers.len(), 1);
}

#[test]
fn starting_jobs() {
    let mut t = JobTable::new();
    assert!(t.has_next_number());
    assert_eq!(t.start(100, "sleep 10 &"), "[1] 100");
    assert_eq!(t.start(200, "  ls | wc && "), "[2] 200");
    assert_eq!(t.jobs[0].command, "sleep 10");
    assert_eq!(t.jobs[0].status, "Running");
    assert_eq!(t.jobs[1].command, "ls | wc &&");
    assert!(t.children.contains(&100) && t.children.contains(&200));
}

#[test]
fn the_highest_number_may_be_taken() {
    let mut t = JobTable::new();
    t.jobs.push(job(u32::MAX, 1, "Running"));
    assert!(!t.has_next_number());
}

#[test]
fn numbers_are_used_again() {
    let mut t = JobTable::new();
    t.start(1, "a &");
    t.start(2, "b &");
    t.start(3, "c &");
    t.reap_jobs(&[false, false, true], true);
    assert_eq!(t.start(4, "d &"), "[3] 4");
    t.reap_jobs(&[true], true);
    assert_eq!(t.start(5, "e &"), "[4] 5");
}

#[test]
fn running_jobs_with_a_process_are_asked() {
    let mut t = JobTable::new();
    t.jobs.push(job(1, 10, "Done"));
    t.jobs.push(job(2, 20, "Running"));
    t.start(30, "x &");
    assert_eq!(t.due_processes(), [None, None, Some(30)]);
    assert!(t.reap_jobs(&[true, true, false], false).is_empty());
    assert_eq!(t.due_processes(), [None, None, Some(30)]);
    assert_eq!(t.jobs[1].status, "Running");
    assert!(t.reap_jobs(&[true, true, true], false).is_empty());
    assert_eq!(t.due_processes(), [None, None, None]);
    assert_eq!(t.jobs[2].status, "Done");
    assert!(!t.children.contains(&30));
}

#[test]
fn reaping_reports_and_forgets_what_is_done() {
    let mut t = JobTable::new();
    t.start(1, "sleep 1 &");
    t.start(2, "sleep 2 &");
    t.start(3, "sleep 3 &");
    assert!(t.reap_jobs(&[false, true, false], false).is_empty());
    assert_eq!(t.jobs.len(), 3);
    let lines = t.reap_jobs(&[], true);
    assert_eq!(lines, [format!("[2]-  {:<24}sleep 2", "Done")]);
    let left: Vec<(u32, u32)> = t.jobs.iter().map(|j| (j.job_number, j.pid)).collect();
    assert_eq!(left, [(1, 1), (3, 3)]);
    assert!(t.reap_jobs(&[], true).is_empty());
}

#[test]
fn a_process_ends_only_once() {
    let mut t = JobTable::new();
    t.start(7, "a &");
    t.start(7, "b &");
    assert_eq!(t.due_processes(), [Some(7), Some(7)]);
    t.reap_jobs(&[true, true], false);
    assert_eq!(t.jobs[0].status, "Done");
    assert_eq!(t.jobs[1].status, "Running");
}

#[test]
fn listing_reports_everything() {
    let mut t = JobTable::new();
    t.start(1, "sleep 1 &");
    t.start(2, "sleep 2 &");
    t.start(3, "sleep 3 &");
    t.reap_jobs(&[false, false, true], false);
    let lines = t.list_jobs();
    assert_eq!(
        lines,
        [
            format!("[1]   {:<24}sleep 1 &", "Running"),
            format!("[2]-  {:<24}sleep 2 &", "Running"),
            format!("[3]+  {:<24}sleep 3", "Done"),
        ]
    );
    assert_eq!(t.jobs.len(), 2);
    assert_eq!(t.list_jobs().len(), 2);
}

#[test]
fn numbers_rise_along_the_table() {
    let mut t = JobTable::new();
    for pid in 1..6 {
        t.start(pid, "x &");
    }
    t.reap_jobs(&[false, true, false, true, false], true);
    t.start(6, "y &");
    let numbers: Vec<u32> = t.jobs.iter().map(|j| j.job_number).collect();
    assert_eq!(numbers, [1, 3, 5, 6]);
}
