use theoremata_prover::verify::{
    outcome_str, producer_check_verdict, provenance_hash, records_producer_check, resolve_hardening, screen_round_trip,
    HardeningOutcome, HardeningRun, HardeningState,
};

const PROOF: &str = "theorem t : True := trivial\n";

#[test]
fn outcome_names_are_stable() {
    assert_eq!(outcome_str(HardeningOutcome::Passed), "passed");
    assert_eq!(outcome_str(HardeningOutcome::Flagged), "flagged");
    assert_eq!(outcome_str(HardeningOutcome::Skipped), "skipped");
}

#[test]
fn hardening_disabled_is_not_a_failure() {
    let (state, clean, _) = resolve_hardening(false, false, None);
    assert_eq!(clean, None, "a check nobody asked for must not reject the proof");
    assert_eq!(state.as_str(), "not_requested");
}

#[test]
fn disabled_hardening_does_not_drag_down_the_lexical_verdict() {
    let (_, clean, outcome) = resolve_hardening(false, false, None);
    for lexical in [true, false] {
        let with = screen_round_trip("theorem t : True", PROOF, "theorem t : True", lexical, clean, outcome);
        assert_eq!(with.lexically_verified, with.lexical_clean && with.axioms_clean);
    }
}

#[test]
fn enabled_hardening_without_a_store_reports_could_not_run() {
    let (state, clean, _) = resolve_hardening(true, false, None);
    assert_eq!(clean, Some(false), "a requested check that never ran must not report clean");
    assert_eq!(state.as_str(), "requested_but_could_not_run");
}

#[test]
fn a_passed_run_is_the_only_clean_verdict() {
    let passed = HardeningRun { ran: true, clean: true, outcome: HardeningOutcome::Passed };
    let (state, clean, _) = resolve_hardening(true, true, Some(passed));
    assert_eq!((state, clean), (HardeningState::Ran, Some(true)));
    for outcome in [HardeningOutcome::Flagged, HardeningOutcome::Inconclusive, HardeningOutcome::Unavailable, HardeningOutcome::BuildFailed] {
        let ran = HardeningRun { ran: true, clean: false, outcome };
        let (state, clean, _) = resolve_hardening(true, true, Some(ran));
        assert_eq!((state, clean), (HardeningState::Ran, Some(false)), "{outcome:?} ran but is not clean");
    }
}

#[test]
fn an_unexecuted_run_is_could_not_run_even_when_harden_returns_ok() {
    let skipped = HardeningRun { ran: false, clean: false, outcome: HardeningOutcome::Skipped };
    let (state, clean, _) = resolve_hardening(true, true, Some(skipped));
    assert_eq!((state, clean), (HardeningState::CouldNotRun, Some(false)));
    let (state, clean, _) = resolve_hardening(true, true, None);
    assert_eq!((state, clean), (HardeningState::CouldNotRun, Some(false)), "an error is not a pass");
}

#[test]
fn external_prover_output_never_reports_hardening_clean_when_it_did_not_run() {
    let clean_looking = "theorem t : True := trivial\n";
    for requested in [false, true] {
        let (state, clean, outcome) = resolve_hardening(requested, false, None);
        let report = screen_round_trip(clean_looking, clean_looking, "theorem t : True", true, clean, outcome);
        assert_ne!(report.hardening_clean, Some(true));
        assert_ne!(state.as_str(), "ran");
        assert!(!report.live, "a lexical pre-screen is never a live proof");
    }
}

#[test]
fn a_flagged_run_fails_the_screen_and_the_verdict_label_follows() {
    let flagged = HardeningRun { ran: true, clean: false, outcome: HardeningOutcome::Flagged };
    let (_, clean, outcome) = resolve_hardening(true, true, Some(flagged));
    let r = screen_round_trip(PROOF, PROOF, "theorem t : True", true, clean, outcome);
    assert!(!r.lexically_verified);
    assert_eq!(producer_check_verdict(r.lexically_verified), "lexical_screen_flagged");
    let inconclusive = HardeningRun { ran: true, clean: false, outcome: HardeningOutcome::Inconclusive };
    let (_, clean, outcome) = resolve_hardening(true, true, Some(inconclusive));
    let r = screen_round_trip(PROOF, PROOF, "theorem t : True", true, clean, outcome);
    assert!(r.lexically_verified, "only a flag counts against the screen");
    assert_eq!(producer_check_verdict(r.lexically_verified), "lexical_screen_clean");
}

#[test]
fn the_screen_checks_sorry_and_the_statement() {
    let r = screen_round_trip(PROOF, "theorem t : True := by sorry\n", "theorem t : True", true, None, None);
    assert!(!r.axioms_clean && !r.lexically_verified);
    let r = screen_round_trip(PROOF, "theorem   t : True :=\n  trivial", "theorem t : True", true, None, None);
    assert!(r.statement_preserved && r.axioms_clean && r.lexically_verified);
    let r = screen_round_trip(PROOF, "theorem t : False := trivial\n", "theorem t : True", true, None, None);
    assert!(!r.statement_preserved, "a weakened header is not preserved");
    let r = screen_round_trip("", "theorem u : True := trivial\n", "   ", true, None, None);
    assert!(!r.statement_preserved, "an empty expected statement is never present");
}

#[test]
fn an_empty_id_writes_no_row_and_does_not_panic() {
    assert!(!records_producer_check("", "n"));
    assert!(!records_producer_check("p", ""));
    assert!(!records_producer_check("", ""));
    assert!(records_producer_check("p", "n"));
}

#[test]
fn provenance_hash_is_lowercase_hex_sha256() {
    assert_eq!(provenance_hash(""), "e3b0c44298fc1c149afbf4c8996fb92427ae41e4649b934ca495991b7852b855");
    assert_eq!(provenance_hash("abc"), "ba7816bf8f01cfea414140de5dae2223b00361a396177a9cb410ff61f20015ad");
    assert_eq!(provenance_hash("abc"), provenance_hash("abc"));
}
