use std::cell::Cell;
use theoremata_prover::model::ProverJobStatus;
use theoremata_prover::proof_job::{
    advance_backoff, resume_job, sparse_poll_plan, PollDecision, PollResult, ResumeConfig, ResumeOutcomeKind, ResumeState,
};

fn cfg() -> ResumeConfig {
    ResumeConfig {
        max_polls: 8,
        base_backoff: 1,
        max_backoff: 8,
    }
}

#[test]
fn terminates_after_three_polls_resuming_across_polls() {
    let cfg = cfg();
    let calls = Cell::new(0u32);
    // Records the poll index seen on each call to prove we never restart.
    let seen: std::cell::RefCell<Vec<u32>> = std::cell::RefCell::new(vec![]);
    let poller = |s: &ResumeState| {
        calls.set(calls.get() + 1);
        seen.borrow_mut().push(s.last_poll_index);
        if s.last_poll_index >= 2 {
            PollResult::new(ProverJobStatus::Proved)
        } else {
            PollResult::new(ProverJobStatus::InProgress)
        }
    };
    let out = resume_job(ResumeState::new("job-1", &cfg), &poller, &cfg);
    assert_eq!(out.kind, ResumeOutcomeKind::Done);
    assert_eq!(calls.get(), 3, "exactly three polls");
    // Indices strictly increase 0,1,2 — resumed, never restarted from 0.
    assert_eq!(*seen.borrow(), vec![0, 1, 2]);
    assert_eq!(out.state.last_poll_index, 3);
    assert!(out.state.terminal);
    assert_eq!(out.state.last_status, Some(ProverJobStatus::Proved));
}

#[test]
fn backoff_grows_exponentially_and_is_capped() {
    let cfg = cfg();
    // Never terminal, so we exhaust the budget while observing backoff.
    let poller = |_: &ResumeState| PollResult::new(ProverJobStatus::InProgress);
    let out = resume_job(ResumeState::new("job-2", &cfg), &poller, &cfg);
    assert_eq!(out.kind, ResumeOutcomeKind::GaveUp);
    // base=1 doubled each poll, clamped at max_backoff=8.
    assert_eq!(out.state.next_backoff, 8);
}

#[test]
fn pure_backoff_sequence_is_exponential_then_capped() {
    let cfg = cfg();
    let mut b = cfg.base_backoff;
    let mut seq = vec![b];
    for _ in 0..6 {
        b = advance_backoff(b, &cfg);
        seq.push(b);
    }
    assert_eq!(seq, vec![1, 2, 4, 8, 8, 8, 8]);
}

#[test]
fn budget_exhaustion_gives_up_never_false_done() {
    let cfg = ResumeConfig {
        max_polls: 3,
        base_backoff: 1,
        max_backoff: 4,
    };
    let calls = Cell::new(0u32);
    let poller = |_: &ResumeState| {
        calls.set(calls.get() + 1);
        PollResult::new(ProverJobStatus::InProgress)
    };
    let out = resume_job(ResumeState::new("job-3", &cfg), &poller, &cfg);
    assert_eq!(out.kind, ResumeOutcomeKind::GaveUp);
    assert_eq!(calls.get(), 3, "polled exactly up to the budget");
    assert_eq!(out.state.last_poll_index, 3);
    assert!(!out.state.terminal);
}

#[test]
fn resumes_from_persisted_state_at_last_poll_index() {
    let cfg = cfg();
    // Simulate a state reloaded after 2 prior polls (e.g. an interrupted run).
    let mut reloaded = ResumeState::new("job-4", &cfg);
    reloaded.last_poll_index = 2;
    reloaded.next_backoff = 4;
    reloaded.last_status = Some(ProverJobStatus::InProgress);

    // Plan on a mid-flight state must be Resume{from: 2}, not a fresh Poll.
    match sparse_poll_plan(&reloaded, &cfg) {
        PollDecision::Resume { from } => assert_eq!(from, 2),
        other => panic!("expected Resume{{from:2}}, got {other:?}"),
    }

    let first_seen = std::cell::Cell::new(u32::MAX);
    let poller = |s: &ResumeState| {
        if first_seen.get() == u32::MAX {
            first_seen.set(s.last_poll_index);
        }
        if s.last_poll_index >= 3 {
            PollResult::new(ProverJobStatus::Proved)
        } else {
            PollResult::new(ProverJobStatus::InProgress)
        }
    };
    let out = resume_job(reloaded, &poller, &cfg);
    assert_eq!(first_seen.get(), 2, "continued from index 2, did not restart");
    assert_eq!(out.kind, ResumeOutcomeKind::Done);
    assert_eq!(out.state.last_poll_index, 4);
}

#[test]
fn fresh_state_plan_is_poll_with_base_backoff() {
    let cfg = cfg();
    let state = ResumeState::new("job-5", &cfg);
    assert_eq!(sparse_poll_plan(&state, &cfg), PollDecision::Poll { after: 1 });
}

#[test]
fn terminal_state_plan_is_done() {
    let cfg = cfg();
    let mut state = ResumeState::new("job-6", &cfg);
    state.terminal = true;
    state.last_status = Some(ProverJobStatus::Proved);
    assert_eq!(sparse_poll_plan(&state, &cfg), PollDecision::Done);
}

#[test]
fn plan_is_deterministic_same_inputs_same_output() {
    let cfg = cfg();
    let state = ResumeState::new("job-7", &cfg);
    let a = sparse_poll_plan(&state, &cfg);
    let b = sparse_poll_plan(&state, &cfg);
    assert_eq!(a, b);

    // Full-run determinism: identical mock → identical final state.
    let poller = |s: &ResumeState| {
        if s.last_poll_index >= 2 {
            PollResult::new(ProverJobStatus::Failed)
        } else {
            PollResult::new(ProverJobStatus::InProgress)
        }
    };
    let r1 = resume_job(ResumeState::new("job-7", &cfg), &poller, &cfg);
    let r2 = resume_job(ResumeState::new("job-7", &cfg), &poller, &cfg);
    assert_eq!(r1, r2);
    // Failed is terminal → Done outcome (the loop finished the job).
    assert_eq!(r1.kind, ResumeOutcomeKind::Done);
}

#[test]
fn checkpoint_is_carried_across_polls() {
    let cfg = cfg();
    let poller = |s: &ResumeState| {
        let next = s.last_poll_index + 1;
        let status = if s.last_poll_index >= 1 {
            ProverJobStatus::Proved
        } else {
            ProverJobStatus::InProgress
        };
        PollResult {
            status,
            checkpoint: Some(serde_json::from_str(&format!("{{\"step\": {next}}}")).unwrap()),
        }
    };
    let out = resume_job(ResumeState::new("job-9", &cfg), &poller, &cfg);
    assert_eq!(out.kind, ResumeOutcomeKind::Done);
    let expected: serde_json::Value = serde_json::from_str("{\"step\": 2}").unwrap();
    assert_eq!(out.state.checkpoint, expected);
}

#[test]
fn default_resume_config_is_sixteen_polls_from_one_to_sixty_four() {
    let d = ResumeConfig::default();
    assert_eq!(d, ResumeConfig { max_polls: 16, base_backoff: 1, max_backoff: 64 });
    let s = ResumeState::new("j", &ResumeConfig { max_polls: 4, base_backoff: 0, max_backoff: 8 });
    assert_eq!(s.next_backoff, 1, "the first backoff is at least one tick");
    assert_eq!(s.checkpoint, serde_json::Value::Null);
}

#[test]
fn an_already_terminal_or_spent_state_is_returned_untouched() {
    let cfg = cfg();
    let mut done = ResumeState::new("job-t", &cfg);
    done.terminal = true;
    let calls = Cell::new(0u32);
    let poller = |_: &ResumeState| {
        calls.set(calls.get() + 1);
        PollResult::new(ProverJobStatus::Proved)
    };
    let out = resume_job(done.clone(), &poller, &cfg);
    assert_eq!(out.kind, ResumeOutcomeKind::Done);
    assert_eq!(out.state, done);
    let mut spent = ResumeState::new("job-s", &cfg);
    spent.last_poll_index = 8;
    let out = resume_job(spent.clone(), &poller, &cfg);
    assert_eq!(out.kind, ResumeOutcomeKind::GaveUp);
    assert_eq!(out.state, spent);
    assert_eq!(calls.get(), 0, "no poll was made");
}

#[test]
fn backoff_saturates_and_respects_a_base_above_the_ceiling() {
    let cfg = ResumeConfig { max_polls: 3, base_backoff: 10, max_backoff: 4 };
    assert_eq!(advance_backoff(1, &cfg), 2);
    assert_eq!(advance_backoff(7, &cfg), 10);
    let wide = ResumeConfig { max_polls: 3, base_backoff: 1, max_backoff: u64::MAX };
    assert_eq!(advance_backoff(u64::MAX, &wide), u64::MAX);
}

#[test]
fn terminal_statuses() {
    for s in [
        ProverJobStatus::Proved,
        ProverJobStatus::Partial,
        ProverJobStatus::Failed,
        ProverJobStatus::Counterexample,
        ProverJobStatus::Cancelled,
        ProverJobStatus::Error,
    ] {
        assert!(s.is_terminal());
    }
    for s in [ProverJobStatus::Submitted, ProverJobStatus::Queued, ProverJobStatus::InProgress] {
        assert!(!s.is_terminal());
    }
}
