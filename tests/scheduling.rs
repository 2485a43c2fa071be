use std::sync::Arc;

use zinn::error::ZinnError;
use zinn::job::{InnerJobRealization, JobRealization};
use zinn::queue::{FetchStep, JobState, Queue};
use zinn::runner::{conclude, outcome_state, preflight, ChildExit, Options, Preflight};
use zinn::tracker::{job_finished_msg, job_prefix, truncate_ellipse, DummyBarkeeper, OutputBuffer};

fn job(name: &str, deps: Vec<JobRealization>) -> JobRealization {
    Arc::new(InnerJobRealization::new(name.into(), format!("echo {}", name), false, vec![], deps, vec![], vec![]))
}

fn files_job(inputs: &[&str], outputs: &[&str]) -> InnerJobRealization {
    InnerJobRealization::new(
        "f".into(),
        "cp in.txt out.txt".into(),
        false,
        vec![],
        vec![],
        inputs.iter().map(|s| s.to_string()).collect(),
        outputs.iter().map(|s| s.to_string()).collect(),
    )
}

fn opts(force: bool, dry_run: bool, trace: bool) -> Options {
    Options { verbose: false, force, trace, dry_run }
}

fn run_of(step: FetchStep) -> JobRealization {
    match step {
        FetchStep::Run(j) => j,
        FetchStep::Wait => panic!("unexpected wait"),
        FetchStep::Stop => panic!("unexpected stop"),
    }
}

#[test]
fn dependency_runs_first() {
    let a = job("a", vec![]);
    let b = job("b", vec![a.clone()]);
    let d = job("default", vec![b.clone()]);
    let mut q = Queue::new();
    for j in d.transitive_dependencies() {
        q.enqueue(j);
    }
    q.enqueue(d.clone());
    q.done();
    assert_eq!(q.len(), 3);
    let first = run_of(q.fetch());
    assert_eq!(first.name(), "a");
    assert!(matches!(q.fetch(), FetchStep::Wait));
    q.finished(first, JobState::Finished);
    let second = run_of(q.fetch());
    assert_eq!(second.name(), "b");
    q.finished(second, JobState::Skipped);
    let third = run_of(q.fetch());
    assert_eq!(third.name(), "default");
    assert_eq!(q.state(&third), Some(JobState::Running));
    assert_eq!(q.len(), 0);
    // the last job is still running: nothing pending is alive
    assert!(matches!(q.fetch(), FetchStep::Stop));
    q.finished(third, JobState::Finished);
    assert!(matches!(q.fetch(), FetchStep::Stop));
    assert!(!q.has_failed());
    assert_eq!(q.state(&a), Some(JobState::Finished));
    assert_eq!(q.state(&b), Some(JobState::Skipped));
}

#[test]
fn last_ready_job_is_chosen() {
    let mut q = Queue::new();
    q.enqueue(job("x", vec![]));
    q.enqueue(job("y", vec![]));
    assert_eq!(run_of(q.fetch()).name(), "y");
    assert_eq!(run_of(q.fetch()).name(), "x");
    assert!(matches!(q.fetch(), FetchStep::Wait));
}

#[test]
fn failure_stops_the_queue() {
    let slow = job("slow", vec![]);
    let boom = job("boom", vec![]);
    let d = job("default", vec![slow.clone(), boom.clone()]);
    let mut q = Queue::new();
    q.enqueue(slow.clone());
    q.enqueue(boom.clone());
    q.enqueue(d.clone());
    q.done();
    let first = run_of(q.fetch());
    let second = run_of(q.fetch());
    assert_eq!(first.name(), "boom");
    assert_eq!(second.name(), "slow");
    q.finished(first, JobState::Failed);
    assert!(q.has_failed());
    assert!(matches!(q.fetch(), FetchStep::Stop));
    q.finished(second, JobState::Finished);
    assert!(matches!(q.fetch(), FetchStep::Stop));
    assert_eq!(q.state(&d), Some(JobState::Ready));
}

#[test]
fn waiting_without_done() {
    let mut q = Queue::new();
    assert!(matches!(q.fetch(), FetchStep::Wait));
    q.done();
    assert!(matches!(q.fetch(), FetchStep::Stop));
}

#[test]
fn drained_queue_has_only_terminal_states() {
    let a = job("a", vec![]);
    let mut q = Queue::new();
    q.enqueue(a.clone());
    q.done();
    let j = run_of(q.fetch());
    q.finished(j, JobState::Finished);
    assert!(matches!(q.fetch(), FetchStep::Stop));
    assert_eq!(q.len(), 0);
    assert_eq!(q.state(&a), Some(JobState::Finished));
}

#[test]
fn interactive_jobs_are_noticed() {
    let mut q = Queue::new();
    q.enqueue(job("a", vec![]));
    assert!(!q.has_interactive());
    q.enqueue(Arc::new(InnerJobRealization::new("i".into(), "vi".into(), true, vec![], vec![], vec![], vec![])));
    assert!(q.has_interactive());
}

#[test]
fn dry_run_finishes_without_files() {
    let j = files_job(&["in.txt"], &["out.txt"]);
    let r = preflight(&j, &opts(false, true, true), &vec![None], &vec![None]).unwrap();
    assert!(matches!(r, Preflight::DryRun { trace: true }));
}

#[test]
fn missing_input_fails() {
    let j = files_job(&["a", "b"], &[]);
    match preflight(&j, &opts(false, false, false), &vec![Some(1), None], &vec![]) {
        Err(ZinnError::InputFileError(f)) => assert_eq!(f, "b"),
        _ => panic!("expected an input file error"),
    }
}

#[test]
fn up_to_date_outputs_skip_then_touch_reruns() {
    let j = files_job(&["in.txt"], &["out.txt"]);
    let o = opts(false, false, false);
    assert!(matches!(preflight(&j, &o, &vec![Some(100)], &vec![Some(200)]), Ok(Preflight::Skip)));
    assert!(matches!(preflight(&j, &o, &vec![Some(200)], &vec![Some(200)]), Ok(Preflight::Skip)));
    assert!(matches!(preflight(&j, &o, &vec![Some(300)], &vec![Some(200)]), Ok(Preflight::Execute { trace: false })));
    assert!(matches!(preflight(&j, &opts(true, false, true), &vec![Some(100)], &vec![Some(200)]), Ok(Preflight::Execute { trace: true })));
    assert!(matches!(preflight(&j, &o, &vec![Some(100)], &vec![None]), Ok(Preflight::Execute { .. })));
}

#[test]
fn no_skip_without_inputs_or_outputs() {
    let j = files_job(&[], &["out.txt"]);
    assert!(matches!(preflight(&j, &opts(false, false, false), &vec![], &vec![Some(5)]), Ok(Preflight::Execute { .. })));
}

#[test]
fn exit_status_decides_state() {
    let j = files_job(&[], &["o1", "o2"]);
    assert!(matches!(conclude(&j, ChildExit::Code(0), &vec![true, true]), Ok(JobState::Finished)));
    assert!(matches!(conclude(&j, ChildExit::Code(7), &vec![true, true]), Err(ZinnError::ChildFailed(7))));
    assert!(matches!(conclude(&j, ChildExit::Signaled, &vec![true, true]), Err(ZinnError::ChildSignaled)));
    match conclude(&j, ChildExit::Code(0), &vec![true, false]) {
        Err(ZinnError::OutputFileError(f)) => assert_eq!(f, "o2"),
        _ => panic!("expected an output file error"),
    }
    // a failed exit wins over a missing output
    assert!(matches!(conclude(&j, ChildExit::Code(1), &vec![false, false]), Err(ZinnError::ChildFailed(1))));
}

#[test]
fn outcome_maps_errors_to_failed() {
    assert_eq!(outcome_state(&Ok(JobState::Skipped)), JobState::Skipped);
    assert_eq!(outcome_state(&Err(ZinnError::ChildSignaled)), JobState::Failed);
}

#[test]
fn truncation_respects_characters() {
    assert_eq!(truncate_ellipse("short".into(), 60), "short");
    let long = "x".repeat(61);
    assert_eq!(truncate_ellipse(long, 60), format!("{}...", "x".repeat(57)));
    let wide = "é".repeat(70);
    let cut = truncate_ellipse(wide, 60);
    assert_eq!(cut, format!("{}...", "é".repeat(57)));
    assert_eq!(truncate_ellipse("x".repeat(60), 60), "x".repeat(60));
}

#[test]
fn completion_lines() {
    let j = Arc::new(InnerJobRealization::new("greet".into(), "".into(), false, vec!["bob".into()], vec![], vec![], vec![]));
    assert_eq!(job_finished_msg(&j, JobState::Finished), "=> DONE [greet] bob");
    assert_eq!(job_finished_msg(&j, JobState::Skipped), "=> SKIPPED [greet] bob");
    assert_eq!(job_finished_msg(&j, JobState::Failed), "=> FAILED [greet] bob");
    assert_eq!(job_prefix(&j), "[greet] bob");
}

#[test]
fn verbose_output_promotes_previous_line() {
    let mut b = OutputBuffer::new();
    assert_eq!(b.cmd_output("[j]", "one", true), None);
    assert_eq!(b.cmd_output("[j]", "two", true), Some("[j]: one".to_string()));
    assert_eq!(b.flush_cmd_output("[j]", true), Some("[j]: two".to_string()));
    assert_eq!(b.flush_cmd_output("[j]", true), None);
    assert_eq!(b.cmd_output("[j]", "three", false), None);
    assert_eq!(b.flush_cmd_output("[j]", false), None);
}

#[test]
fn plain_tracker_lines() {
    let keeper = DummyBarkeeper::new();
    let threads = keeper.for_threads(3);
    assert_eq!(threads.len(), 3);
    assert_eq!(threads[0].cmd_output("[a]", "hello"), "[a]: hello");
    let j = job("a", vec![]);
    assert_eq!(threads[1].job_completed(&j, JobState::Finished), "=> DONE [a]");
}
