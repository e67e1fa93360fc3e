use std::str::FromStr;
use theoremata_prover::formal::{
    all_entry_names, entry_name, escape_hatch_findings, escape_hatch_tokens, gate_value_on,
    parse_system, per_declaration_status, sentinel_holds, statement_mentioned, strip_comments,
    theorem_name_hint, FormalSystem, SessionError, SuccessSignal, TierZeroGates,
};

#[test]
fn per_declaration_status_isolates_a_single_failure() {
    let code = "theorem good : True := trivial\ntheorem bad : False := by sorry\n";
    let errors = vec!["error: Generated.lean:2:0: unsolved goals in `bad`".to_string()];
    let status = per_declaration_status(FormalSystem::Lean, code, false, &errors);
    assert_eq!(status.len(), 2);
    assert!(status.iter().any(|u| u.name == "good" && u.ok));
    assert!(status.iter().any(|u| u.name == "bad" && !u.ok));
}

#[test]
fn per_declaration_status_all_ok_when_compiled() {
    let code = "theorem a : True := trivial\nlemma b : True := trivial\n";
    let status = per_declaration_status(FormalSystem::Lean, code, true, &[]);
    assert_eq!(status.len(), 2);
    assert!(status.iter().all(|u| u.ok));
}

#[test]
fn statement_hidden_in_comment_is_not_matched() {
    let stmt = "theorem foo : goal";
    let commented = "-- theorem foo : goal\nexample : True := trivial\n";
    assert!(!statement_mentioned(stmt, commented));
    let real = "theorem foo : goal := by trivial\n";
    assert!(statement_mentioned(stmt, real));
    let block = "(* theorem foo : goal *)\nexample : True := trivial\n";
    assert!(!statement_mentioned(stmt, block));
    assert!(!statement_mentioned(stmt, "// theorem foo : goal\n"));
    assert!(!statement_mentioned(stmt, "/- theorem foo : goal -/\n"));
    assert!(!statement_mentioned(stmt, "{- theorem foo : goal -}\n"));
}

#[test]
fn strip_comments_is_panic_free_on_non_ascii_and_deterministic() {
    let code = "theorem β : ∀ x, x = x -- comment with π\n(* café ≤ ∞ *)λ\n";
    let a = strip_comments(code);
    let b = strip_comments(code);
    assert_eq!(a, b, "strip_comments must be deterministic");
    assert!(a.contains('β'));
    assert!(a.contains('λ'));
    assert!(!a.contains("comment"));
    assert!(!a.contains("café"));
    assert_eq!(a.chars().count(), code.chars().count());
}

#[test]
fn strip_comments_preserves_agda_pragmas_but_not_agda_comments() {
    let code = "{-# OPTIONS --allow-unsolved-metas #-}\n\
                {- postulate absurd : ⊥ -}\n\
                {-# COMPILED foo bar #-}\n\
                postulate real : Set\n";
    let out = strip_comments(code);
    assert!(out.contains("{-# OPTIONS --allow-unsolved-metas #-}"));
    assert!(out.contains("{-# COMPILED foo bar #-}"));
    assert!(!out.contains("absurd"));
    assert!(out.contains("postulate real"));
    assert_eq!(out.chars().count(), code.chars().count());
    assert_eq!(out.lines().count(), code.lines().count());
    let unclosed = strip_comments("{-# OPTIONS sorry\n");
    assert!(!unclosed.contains("OPTIONS"));
}

#[test]
fn strip_comments_pragma_exemption_does_not_affect_other_systems() {
    assert!(!strip_comments("/- sorry -/\nexact h\n").contains("sorry"));
    assert!(!strip_comments("(* admit *)\nQed.\n").contains("admit"));
    assert!(!strip_comments("$( $a bad $)\nfoo $p\n").contains("bad"));
    assert!(!strip_comments("theorem t := by -- sorry\n  rfl\n").contains("sorry"));
}

#[test]
fn escape_hatch_table_is_alias_expanded_and_boundary_matched() {
    let cases: &[(FormalSystem, &str, &str, &str)] = &[
        (
            FormalSystem::Lean,
            "theorem t : P := by native_decide\n",
            "theorem t : P := by decide +native\n",
            "theorem t : 2 + 2 = 4 := by decide\ninstance : DecidableEq Foo := decidable_eq_foo\n",
        ),
        (
            FormalSystem::Rocq,
            "Theorem t : True.\nProof.\nAdmitted.\n",
            "Parameter bad : False.\n",
            "Theorem admits_a_root : True.\nProof. exact I. Qed.\n",
        ),
        (
            FormalSystem::Isabelle,
            "lemma t: \"True\"\n  sorry\n",
            "axiomatization bad where bad: \"False\"\n",
            "lemma oracle_free: \"True\" by simp\n",
        ),
        (
            FormalSystem::Agda,
            "postulate absurd : Set\n",
            "{-# OPTIONS --no-termination-check #-}\nthm : Set\n",
            "postulates : Set\npostulates = Set\n",
        ),
    ];
    for (system, base, alias, innocent) in cases {
        assert!(
            !escape_hatch_findings(*system, base).is_empty(),
            "{}: the base token must still be caught",
            system.as_str()
        );
        assert!(
            !escape_hatch_findings(*system, alias).is_empty(),
            "{}: the alias must be caught too",
            system.as_str()
        );
        assert!(
            escape_hatch_findings(*system, innocent).is_empty(),
            "{}: innocent identifier flagged: {:?}",
            system.as_str(),
            escape_hatch_findings(*system, innocent)
        );
    }
}

#[test]
fn escape_hatch_findings_honour_comments_and_line_breaks() {
    assert!(escape_hatch_findings(
        FormalSystem::Lean,
        "-- sorry\n/- native_decide -/\ntheorem t : True := trivial\n"
    )
    .is_empty());
    assert_eq!(
        escape_hatch_findings(FormalSystem::Rocq, "Unset\n  Universe Checking.\n"),
        vec!["Unset Universe Checking".to_string()]
    );
}

#[test]
fn candle_and_metamath_are_audited_structurally_not_by_token() {
    assert!(escape_hatch_tokens(FormalSystem::Candle).is_empty());
    assert!(escape_hatch_tokens(FormalSystem::Metamath).is_empty());
}

#[test]
fn all_entry_names_lists_declarations_in_order() {
    let code = "theorem foo : True := trivial\nlemma bar : True := trivial\n";
    assert_eq!(all_entry_names(FormalSystem::Lean, code), vec!["foo", "bar"]);
}

#[test]
fn candle_parses_and_round_trips() {
    assert_eq!(FormalSystem::from_str("candle").unwrap(), FormalSystem::Candle);
    assert_eq!(FormalSystem::from_str("hol_light").unwrap(), FormalSystem::Candle);
    assert_eq!(FormalSystem::from_str("hol").unwrap(), FormalSystem::Isabelle);
    assert_eq!(FormalSystem::Candle.as_str(), "candle");
    assert_eq!(
        FormalSystem::from_str(FormalSystem::Candle.as_str()).unwrap(),
        FormalSystem::Candle
    );
    assert_eq!(FormalSystem::Candle.source_extension(), ".ml");
    assert_eq!(FormalSystem::Candle.axiom_whitelist().len(), 3);
}

#[test]
fn foundation_profiles_carry_citable_facts() {
    let candle = FormalSystem::Candle.foundation_profile();
    assert_eq!(candle.primitive_notions, Some(25));
    assert!(candle.classical && candle.choice && candle.all_math);
    assert_eq!(FormalSystem::Isabelle.foundation_profile().primitive_notions, None);
    assert_eq!(FormalSystem::Lean.foundation_profile().primitive_notions, None);
    for sys in [
        FormalSystem::Lean,
        FormalSystem::Rocq,
        FormalSystem::Isabelle,
        FormalSystem::Candle,
    ] {
        assert!(sys.foundation_profile().all_math, "{} should be all-math", sys.as_str());
    }
    let rocq = FormalSystem::Rocq.foundation_profile();
    assert!(!rocq.classical && !rocq.choice);
}

#[test]
fn gate_settings_default_off() {
    assert!(!gate_value_on(None));
    assert!(!gate_value_on(Some("")));
    assert!(!gate_value_on(Some("0")));
    assert!(!gate_value_on(Some(" False ")));
    assert!(!gate_value_on(Some("OFF")));
    assert!(gate_value_on(Some("1")));
    assert!(gate_value_on(Some("true")));
    let g = TierZeroGates::from_settings(Some("yes"), None);
    assert!(g.hypothesis_discharge && !g.vacuity);
    assert!(g.any());
    assert!(!TierZeroGates::default().any());
    assert!(TierZeroGates::on().any());
    assert!(!TierZeroGates::off().any());
    let c = TierZeroGates::from_config(false, true);
    assert!(!c.hypothesis_discharge && c.vacuity && c.any());
}

#[test]
fn parse_system_accepts_aliases_and_rejects_unknown_tags() {
    assert_eq!(parse_system("  Lean4 ").unwrap(), FormalSystem::Lean);
    assert_eq!(parse_system("COQ").unwrap(), FormalSystem::Rocq);
    assert_eq!(parse_system("Isabelle/HOL").unwrap(), FormalSystem::Isabelle);
    assert_eq!(parse_system("hol-light").unwrap(), FormalSystem::Candle);
    assert_eq!(parse_system("agda").unwrap(), FormalSystem::Agda);
    assert_eq!(parse_system("mm").unwrap(), FormalSystem::Metamath);
    let err = parse_system(" Mizar ").unwrap_err();
    assert_eq!(err.tag, "mizar");
    assert_eq!(err.message(), "unknown formal system: mizar");
}

#[test]
fn theorem_name_hint_reads_the_header() {
    assert_eq!(theorem_name_hint("  theorem foo : True"), "foo");
    assert_eq!(theorem_name_hint("Theorem bar: 1 = 1."), "bar");
    assert_eq!(theorem_name_hint("lemma baz(x : Nat) : x = x"), "baz(x");
    assert_eq!(theorem_name_hint("lemma qux:"), "qux");
    assert_eq!(theorem_name_hint("def f := 1"), "MainTheorem");
    assert_eq!(theorem_name_hint("theorem :"), "MainTheorem");
}

#[test]
fn entry_name_finds_the_first_declaration() {
    assert_eq!(
        entry_name(FormalSystem::Lean, "-- x\ntheorem main_thm : True := trivial\n"),
        Some("main_thm".to_string())
    );
    assert_eq!(entry_name(FormalSystem::Rocq, "Lemma l1 : True.\n"), Some("l1".to_string()));
    assert_eq!(entry_name(FormalSystem::Lean, "example := 1\n"), None);
}

#[test]
fn stdout_sentinel_needs_markers_and_no_banned_words() {
    const MUST: &[&str] = &["All proofs verified"];
    const BANNED: &[&str] = &["?Error"];
    let sig = SuccessSignal::StdoutSentinel { must_contain: MUST, must_not_contain: BANNED };
    assert!(sig.is_pass(true, false, "All proofs verified", ""));
    assert!(!sig.is_pass(false, true, "All proofs verified", ""));
    assert!(!sig.is_pass(true, true, "All proofs verified", "?ERROR at line 3"));
    assert!(!sig.is_pass(true, true, "nothing", ""));
    let honest = SuccessSignal::NonZeroExitIsHonest;
    assert!(honest.is_pass(false, true, "", ""));
    assert!(!honest.is_pass(true, false, "All proofs verified", ""));
    assert!(sentinel_holds("ab\ncd", "ab\ncd", &["cd"], &["zz".to_string()]));
    assert!(!sentinel_holds("ab\ncd", "ab\ncd", &["cd"], &["b\nc".to_string()]));
}

#[test]
fn session_error_messages() {
    assert_eq!(
        SessionError::Unsupported("step_tactic").message(),
        "unsupported operation: step_tactic"
    );
    assert_eq!(
        SessionError::Backend("crashed".to_string()).message(),
        "session backend error: crashed"
    );
}

#[test]
fn comment_stripping_keeps_positions() {
    let code = "theorem t : True := by -- note\n  (* block\n *) trivial {-# OPTIONS --safe #-}\n";
    let out = strip_comments(code);
    assert_eq!(out.chars().count(), code.chars().count());
    for (a, b) in out.chars().zip(code.chars()) {
        assert_eq!(a == '\n', b == '\n');
        assert!(a == b || a == ' ');
    }
    assert!(out.contains("{-# OPTIONS --safe #-}"));
}
