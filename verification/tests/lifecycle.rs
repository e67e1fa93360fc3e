use theoremata_prover::backend::{rocq_poll_step, LIVE_ROCQ_UNAVAILABLE};
use theoremata_prover::leandojo::{after_session, after_tactic, tactic_status};
use theoremata_prover::model::{cancel_step, JobState, PollStep, ProverJobStatus};
use theoremata_prover::reprover::{available, finish, first_poll, mock_poll, premise_names};

fn job(status: ProverJobStatus, poll_count: u32, percent: u32) -> JobState {
    JobState { status, poll_count, percent }
}

#[test]
fn cancel_finishes_a_running_job_once() {
    let s = job(ProverJobStatus::InProgress, 3, 50);
    let first = cancel_step(s);
    assert_eq!(first.next, job(ProverJobStatus::Cancelled, 3, 50));
    assert!(first.completed);
    let second = cancel_step(first.next);
    assert_eq!(second, PollStep { next: first.next, completed: false });
}

#[test]
fn cancel_leaves_a_proved_job_alone() {
    let s = job(ProverJobStatus::Proved, 2, 100);
    assert_eq!(cancel_step(s), PollStep { next: s, completed: false });
}

#[test]
fn leandojo_tactic_statuses() {
    assert_eq!(tactic_status(Some("proved")), ProverJobStatus::Proved);
    assert_eq!(tactic_status(Some("in_progress")), ProverJobStatus::InProgress);
    assert_eq!(tactic_status(Some("error")), ProverJobStatus::Failed);
    assert_eq!(tactic_status(Some("Proved")), ProverJobStatus::Failed);
    assert_eq!(tactic_status(None), ProverJobStatus::Failed);
}

#[test]
fn leandojo_refused_session_is_an_error() {
    let s = job(ProverJobStatus::Submitted, 0, 0);
    let step = after_session(s, false).unwrap();
    assert_eq!(step.next, job(ProverJobStatus::Error, 0, 0));
    assert!(step.completed);
}

#[test]
fn leandojo_first_poll_is_half_way() {
    let s = job(ProverJobStatus::Submitted, 0, 0);
    let step = after_session(s, true).unwrap();
    assert_eq!(step.next, job(ProverJobStatus::InProgress, 1, 50));
    assert!(!step.completed);
    assert!(after_session(step.next, true).is_none());
}

#[test]
fn leandojo_finished_job_is_not_touched() {
    let s = job(ProverJobStatus::Failed, 4, 75);
    assert_eq!(after_session(s, false), Some(PollStep { next: s, completed: false }));
}

#[test]
fn leandojo_tactic_run_outcomes() {
    let s = job(ProverJobStatus::InProgress, 1, 50);
    let proved = after_tactic(s, Some("proved"));
    assert_eq!(proved.next, job(ProverJobStatus::Proved, 2, 100));
    assert!(proved.completed);
    let going = after_tactic(s, Some("in_progress"));
    assert_eq!(going.next, job(ProverJobStatus::InProgress, 2, 75));
    assert!(!going.completed);
    let lost = after_tactic(s, None);
    assert_eq!(lost.next, job(ProverJobStatus::Failed, 2, 75));
    assert!(lost.completed);
}

#[test]
fn reprover_needs_provider_and_worker() {
    assert!(available(true, true));
    assert!(!available(true, false));
    assert!(!available(false, true));
}

#[test]
fn reprover_mock_poll_fails_after_the_first() {
    let fresh = job(ProverJobStatus::Queued, 0, 0);
    assert_eq!(mock_poll(fresh), PollStep { next: fresh, completed: false });
    let polled = job(ProverJobStatus::InProgress, 1, 20);
    let step = mock_poll(polled);
    assert_eq!(step.next, job(ProverJobStatus::Failed, 1, 20));
    assert!(step.completed);
    let done = job(ProverJobStatus::Proved, 2, 100);
    assert_eq!(mock_poll(done), PollStep { next: done, completed: false });
}

#[test]
fn reprover_first_poll_is_a_fifth() {
    let s = job(ProverJobStatus::Queued, 0, 0);
    let step = first_poll(s).unwrap();
    assert_eq!(step.next, job(ProverJobStatus::InProgress, 1, 20));
    assert!(first_poll(step.next).is_none());
    let done = job(ProverJobStatus::Cancelled, 1, 20);
    assert_eq!(first_poll(done), Some(PollStep { next: done, completed: false }));
}

#[test]
fn reprover_names_at_most_twelve_premises() {
    let mut candidates: Vec<Option<String>> = Vec::new();
    for i in 0..20 {
        if i % 3 == 0 {
            candidates.push(None);
        } else {
            candidates.push(Some(format!("p{i}")));
        }
    }
    let names = premise_names(&candidates);
    let expected: Vec<String> = (0..20).filter(|i| i % 3 != 0).take(12).map(|i| format!("p{i}")).collect();
    assert_eq!(names, expected);
    assert_eq!(names.len(), 12);
    let few = vec![None, Some("a".to_string()), None];
    assert_eq!(premise_names(&few), vec!["a".to_string()]);
}

#[test]
fn reprover_proves_only_verified_answers() {
    let s = job(ProverJobStatus::InProgress, 1, 20);
    let (step, kept, message) = finish(s, "theorem t : True := trivial", Some((true, true)));
    assert_eq!(step.next, job(ProverJobStatus::Proved, 2, 100));
    assert!(step.completed);
    assert_eq!(kept.as_deref(), Some("theorem t : True := trivial"));
    assert_eq!(message, "reprover: proved");

    let (step, _, message) = finish(s, "theorem t : True := sorry", Some((true, false)));
    assert_eq!(step.next.status, ProverJobStatus::Failed);
    assert_eq!(message, "reprover: verification failed");

    let (step, kept, _) = finish(s, "", Some((true, true)));
    assert_eq!(step.next.status, ProverJobStatus::Failed);
    assert_eq!(kept, None);

    let (step, _, _) = finish(s, "theorem t : True := trivial", None);
    assert_eq!(step.next.status, ProverJobStatus::Failed);
}

#[test]
fn rocq_poll_mock_then_proved() {
    let s = job(ProverJobStatus::Submitted, 0, 0);
    let (step, code, message) = rocq_poll_step(s, true, "Demo.main_thm").unwrap();
    assert_eq!(step.next, job(ProverJobStatus::InProgress, 1, 40));
    assert!(!step.completed);
    assert_eq!(code, None);
    assert_eq!(message.as_deref(), Some("mock: working"));
    let (step, code, message) = rocq_poll_step(step.next, true, "Demo.main_thm").unwrap();
    assert_eq!(step.next, job(ProverJobStatus::Proved, 2, 100));
    assert!(step.completed);
    assert_eq!(
        code.as_deref(),
        Some("(* Mock Rocq proof. *)\nTheorem main_thm : True.\nProof.\n  exact I.\nQed.\n")
    );
    assert_eq!(message.as_deref(), Some("mock: proved"));
}

#[test]
fn rocq_poll_live_is_refused() {
    let s = job(ProverJobStatus::Submitted, 0, 0);
    assert_eq!(rocq_poll_step(s, false, "t"), Err(LIVE_ROCQ_UNAVAILABLE.to_string()));
    let done = job(ProverJobStatus::Proved, 2, 100);
    assert_eq!(rocq_poll_step(done, false, "t"), Ok((PollStep { next: done, completed: false }, None, None)));
}
