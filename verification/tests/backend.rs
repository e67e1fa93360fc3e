use theoremata_prover::backend::{advance_mock, mock_rocq_solution, live_decision, live_run, precheck_compat, rocq_mock_enabled, FormalBackend, PrecheckReport, ProofSession, RocqBackend};
use theoremata_prover::model::ProverJobStatus;
use theoremata_prover::formal::{FormalSystem, TierZeroGates};

const PROOF: &str = "Theorem t : True.\nProof.\n  exact I.\nQed.\n";

#[test]
fn a_mock_rocq_run_passes_every_layer_but_is_not_live() {
    let b = RocqBackend { mock: true };
    assert_eq!(b.system(), FormalSystem::Rocq);
    let v = b.verify_with_gates(PROOF, "Theorem t : True", TierZeroGates::default(), true).unwrap();
    assert!(v.verdict.lexically_verified, "{v:?}");
    assert!(!v.verdict.live);
}

#[test]
fn a_live_rocq_run_errors_rather_than_guessing() {
    let b = RocqBackend { mock: false };
    let e = b.verify_with_gates(PROOF, "Theorem t : True", TierZeroGates::default(), true).unwrap_err();
    assert_eq!(e, "live Rocq compile not wired yet (Phase 2)");
}

#[test]
fn rocq_escape_hatches_are_found_case_insensitively() {
    let b = RocqBackend { mock: true };
    let s = b.source_scan("Theorem t : False.\nProof.\nAdmitted.\nAxiom cheat : False.\n").unwrap();
    assert!(!s.clean);
    assert_eq!(s.findings, vec!["admitted".to_string(), "axiom ".to_string()]);
    let s = b.source_scan(PROOF).unwrap();
    assert!(s.clean && s.findings.is_empty());
    let v = b.verify_with_gates("Theorem t : True.\nProof.\nAdmitted.\n", "Theorem t : True", TierZeroGates::default(), true).unwrap();
    assert!(!v.verdict.lexically_verified);
}

#[test]
fn the_rocq_workspace_is_named_after_the_entry() {
    let b = RocqBackend { mock: true };
    let ws = b.scaffold(PROOF, "t").unwrap();
    assert_eq!(ws.source_path, "t.v");
    assert_eq!(ws.entry, "t");
    assert_eq!(ws.root, ".");
    assert!(b.available());
    assert!(b.designated_inputs().is_empty());
}

#[test]
fn the_precheck_rejects_only_a_real_mismatch() {
    let r = precheck_compat(FormalSystem::Lean, Some(" leanprover/lean4:v4.9.0 "), Some("leanprover/lean4:v4.10.0"));
    assert!(!r.compatible);
    assert_eq!(r.reason, "lean toolchain mismatch: project pins `leanprover/lean4:v4.9.0` but backend is `leanprover/lean4:v4.10.0`");
    assert_eq!(precheck_compat(FormalSystem::Lean, Some("v1"), Some(" v1")), PrecheckReport::ok());
    assert!(precheck_compat(FormalSystem::Rocq, None, Some("8.19")).compatible);
    assert!(precheck_compat(FormalSystem::Rocq, Some("  "), Some("8.19")).compatible);
    assert!(RocqBackend { mock: false }.precheck(Some("8.19")).compatible, "a backend pinning nothing accepts any project");
    assert_eq!(PrecheckReport::reject("why").reason, "why");
}

#[test]
fn the_rocq_session_steps_and_submits() {
    let mut b = RocqBackend { mock: true };
    assert!(b.start().is_ok());
    let s = b.step_tactic(4, "  exact I ").unwrap();
    assert_eq!((s.state, s.finished), (5, true));
    assert!(b.step_tactic(0, "Qed.").unwrap().finished);
    assert!(!b.step_tactic(0, "intro h").unwrap().finished);
    let u = b.submit_unit("Lemma x : False. Admitted.").unwrap();
    assert!(!u.ok);
    assert_eq!(u.messages, vec!["admitted".to_string()]);
    assert_eq!(b.goal_state(3).unwrap().goals, vec!["True".to_string()]);
}

#[test]
fn a_live_run_is_fail_closed() {
    let mock = RocqBackend { mock: true };
    let out = live_run(&mock, Some("8.19"), Some(PROOF), "Theorem t : True", TierZeroGates::default(), true);
    assert_eq!(out.status, ProverJobStatus::Proved);
    assert_eq!(out.message, "live: verified through the 3+1-layer gate");
    let bad = live_run(&mock, None, Some("Theorem t : True.\nProof.\nAdmitted.\n"), "Theorem t : True", TierZeroGates::default(), true);
    assert_eq!(bad.status, ProverJobStatus::Failed);
    assert!(bad.verification.is_some());
    let none = live_run(&mock, None, None, "Theorem t : True", TierZeroGates::default(), true);
    assert_eq!(none.status, ProverJobStatus::Failed);
    assert_eq!(none.message, "live job requires a candidate proof in task.stub");
    let live = RocqBackend { mock: false };
    let err = live_run(&live, None, Some(PROOF), "Theorem t : True", TierZeroGates::default(), true);
    assert_eq!(err.status, ProverJobStatus::Error);
    assert_eq!(err.message, "live verify error: live Rocq compile not wired yet (Phase 2)");
    let rejected = live_decision(FormalSystem::Lean, &PrecheckReport::reject("pins differ"), true, Some("x"), Err(String::new()));
    assert_eq!(rejected.status, ProverJobStatus::Error);
    assert_eq!(rejected.message, "precheck rejected: pins differ");
    let down = live_decision(FormalSystem::Isabelle, &PrecheckReport::ok(), false, Some("x"), Err(String::new()));
    assert_eq!(down.message, "isabelle toolchain unavailable (fail-closed)");
}

#[test]
fn rocq_mock_mode_follows_config_then_setting_then_command() {
    assert!(rocq_mock_enabled(true, Some("0"), true));
    assert!(rocq_mock_enabled(false, Some("1"), true));
    assert!(rocq_mock_enabled(false, Some("TRUE"), true));
    assert!(!rocq_mock_enabled(false, Some("yes"), false));
    assert!(rocq_mock_enabled(false, None, false));
    assert!(!rocq_mock_enabled(false, None, true));
}

#[test]
fn the_mock_rocq_job_proves_on_its_second_poll() {
    assert_eq!(
        mock_rocq_solution("Mathlib.Foo.bar_baz"),
        "(* Mock Rocq proof. *)\nTheorem bar_baz : True.\nProof.\n  exact I.\nQed.\n"
    );
    assert_eq!(mock_rocq_solution("plain"), "(* Mock Rocq proof. *)\nTheorem plain : True.\nProof.\n  exact I.\nQed.\n");
    let (s, code, msg) = advance_mock(0, "a.b");
    assert_eq!((s, code, msg.as_str()), (ProverJobStatus::InProgress, None, "mock: working"));
    let (s, code, msg) = advance_mock(3, "a.b");
    assert_eq!(s, ProverJobStatus::Proved);
    assert_eq!(msg, "mock: proved");
    let code = code.unwrap();
    assert!(RocqBackend { mock: true }.source_scan(&code).unwrap().clean);
}
